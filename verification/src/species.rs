//! Sample builders over chemical species.
//!
//! Three enumerations of sample rows: per structure and species, per
//! atom-centered environment, and per three-body environment. Each builder
//! also enumerates the gradient rows matching a caller-supplied set of
//! sample rows.

use vstd::prelude::*;

use crate::indexset::{
    append_spatial, dedup_rows, expand3, index_set_insert, index_set_into_rows, index_set_new,
    index_set_rows, lemma_dedup_rows, lemma_expand3_shape,
};
use crate::labels::{sorted_strict, Labels};
use crate::sorted_set::SortedVecSet;
use crate::system::{SysView, System, SystemData};

verus! {

/// Species lists and structure counts fit in a label entry.
pub open spec fn species_bounded(lists: Seq<Seq<i32>>) -> bool {
    lists.len() <= i32::MAX && forall|i: int|
        0 <= i < lists.len() ==> (#[trigger] lists[i]).len() <= i32::MAX
}

/// The species list of every system of a batch.
pub open spec fn species_of<S: System>(systems: Seq<S>) -> Seq<Seq<i32>> {
    systems.map_values(|s: S| s.spec_species())
}

/// `row` is `[s, a]` for a species `a` present in structure `s`, looking
/// only at structures before `s` and atoms before `a` inside structure `s`.
pub open spec fn structure_row_in_prefix(
    species: Seq<Seq<i32>>,
    s: int,
    a: int,
    row: Seq<i32>,
) -> bool {
    exists|s2: int, a2: int|
        0 <= s2 < species.len() && 0 <= a2 < species[s2].len() && (s2 < s || (s2 == s && a2 < a))
            && row == seq![s2 as i32, species[s2][a2]]
}

/// `row` is `[s, a]` for a species `a` present in structure `s`.
pub open spec fn structure_row_in(species: Seq<Seq<i32>>, row: Seq<i32>) -> bool {
    structure_row_in_prefix(species, species.len() as int, 0, row)
}

/// Collect the `(structure, species)` rows of a batch in sorted order.
fn structure_rows_from_species(lists: &Vec<Vec<i32>>) -> (r: SortedVecSet)
    requires
        lists@.len() <= i32::MAX,
    ensures
        r.wf(),
        forall|row: Seq<i32>| #[trigger] r.rows_view().contains(row) ==> row.len() == 2,
        forall|row: Seq<i32>|
            #[trigger] r.rows_view().contains(row) <==> structure_row_in(
                lists@.map_values(|v: Vec<i32>| v@),
                row,
            ),
{
    let ghost species = lists@.map_values(|v: Vec<i32>| v@);
    proof {
        assert(species.len() == lists@.len());
        assert(forall|i: int| 0 <= i < lists@.len() ==> (#[trigger] species[i]) == lists@[i]@);
    }
    let mut set = SortedVecSet::new();
    let ns = lists.len();
    let mut s: usize = 0;
    while s < ns
        invariant
            ns == lists@.len(),
            s <= ns,
            ns <= i32::MAX,
            species == lists@.map_values(|v: Vec<i32>| v@),
            species.len() == lists@.len(),
            forall|i: int| 0 <= i < lists@.len() ==> (#[trigger] species[i]) == lists@[i]@,
            set.wf(),
            forall|row: Seq<i32>| #[trigger] set.rows_view().contains(row) ==> row.len() == 2,
            forall|row: Seq<i32>|
                #[trigger] set.rows_view().contains(row) <==> structure_row_in_prefix(
                    species,
                    s as int,
                    0,
                    row,
                ),
        decreases ns - s,
    {
        let na = lists[s].len();
        let mut a: usize = 0;
        while a < na
            invariant
                ns == lists@.len(),
                s < ns,
                na == lists@[s as int]@.len(),
                a <= na,
                ns <= i32::MAX,
                species == lists@.map_values(|v: Vec<i32>| v@),
                species.len() == lists@.len(),
                forall|i: int| 0 <= i < lists@.len() ==> (#[trigger] species[i]) == lists@[i]@,
                set.wf(),
                forall|row: Seq<i32>| #[trigger] set.rows_view().contains(row) ==> row.len() == 2,
                forall|row: Seq<i32>|
                    #[trigger] set.rows_view().contains(row) <==> structure_row_in_prefix(
                        species,
                        s as int,
                        a as int,
                        row,
                    ),
            decreases na - a,
        {
            let sp = lists[s][a];
            let mut rowv: Vec<i32> = Vec::new();
            rowv.push(s as i32);
            rowv.push(sp);
            proof {
                assert(rowv@ =~= seq![s as i32, species[s as int][a as int]]);
            }
            let ghost newrow = rowv@;
            set.insert(rowv);
            proof {
                assert forall|row: Seq<i32>| #[trigger] set.rows_view().contains(
                    row,
                ) implies structure_row_in_prefix(species, s as int, a + 1, row) by {
                    if row == newrow {
                        assert(row == seq![s as i32, species[s as int][a as int]]);
                    } else {
                        assert(structure_row_in_prefix(species, s as int, a as int, row));
                        let (s2, a2) = choose|s2: int, a2: int|
                            0 <= s2 < species.len() && 0 <= a2 < species[s2].len() && (s2 < s || (s2
                                == s && a2 < a)) && row == seq![s2 as i32, species[s2][a2]];
                        assert(s2 < s || (s2 == s && a2 < a + 1));
                    }
                }
                assert forall|row: Seq<i32>|
                    structure_row_in_prefix(species, s as int, a + 1, row) implies #[trigger] set.rows_view().contains(
                    row,
                ) by {
                    let (s2, a2) = choose|s2: int, a2: int|
                        0 <= s2 < species.len() && 0 <= a2 < species[s2].len() && (s2 < s || (s2 == s
                            && a2 < a + 1)) && row == seq![s2 as i32, species[s2][a2]];
                    if s2 == s && a2 == a {
                        assert(row == newrow);
                    } else {
                        assert(structure_row_in_prefix(species, s as int, a as int, row));
                    }
                }
            }
            a += 1;
        }
        proof {
            assert forall|row: Seq<i32>|
                structure_row_in_prefix(species, s as int, na as int, row) == structure_row_in_prefix(
                    species,
                    s + 1,
                    0,
                    row,
                ) by {
                if structure_row_in_prefix(species, s as int, na as int, row) {
                    let (s2, a2) = choose|s2: int, a2: int|
                        0 <= s2 < species.len() && 0 <= a2 < species[s2].len() && (s2 < s || (s2 == s
                            && a2 < na)) && row == seq![s2 as i32, species[s2][a2]];
                    assert(s2 < s + 1);
                    assert(structure_row_in_prefix(species, s + 1, 0, row));
                }
                if structure_row_in_prefix(species, s + 1, 0, row) {
                    let (s2, a2) = choose|s2: int, a2: int|
                        0 <= s2 < species.len() && 0 <= a2 < species[s2].len() && (s2 < s + 1 || (s2
                            == s + 1 && a2 < 0)) && row == seq![s2 as i32, species[s2][a2]];
                    assert(s2 <= s);
                    if s2 == s {
                        assert(a2 < species[s as int].len());
                        assert(species[s as int] == lists@[s as int]@);
                    }
                    assert(structure_row_in_prefix(species, s as int, na as int, row));
                }
            }
        }
        s += 1;
    }
    set
}

/// Gradient rows that one `(structure, species)` sample owes from the first
/// `upto` atoms of its structure: three spatial rows for every atom of the
/// sample's species, in atom order.
pub open spec fn structure_gradient_atom_rows(list: Seq<i32>, srow: Seq<i32>, upto: int) -> Seq<
    Seq<i32>,
>
    decreases upto,
{
    if upto <= 0 {
        Seq::empty()
    } else {
        let prefix = structure_gradient_atom_rows(list, srow, upto - 1);
        if list[upto - 1] == srow[1] {
            prefix + seq![
                seq![srow[0], srow[1], (upto - 1) as i32, 0i32],
                seq![srow[0], srow[1], (upto - 1) as i32, 1i32],
                seq![srow[0], srow[1], (upto - 1) as i32, 2i32],
            ]
        } else {
            prefix
        }
    }
}

/// Gradient rows of the first `upto` requested samples, in request order.
pub open spec fn structure_gradient_rows(
    species: Seq<Seq<i32>>,
    srows: Seq<Seq<i32>>,
    upto: int,
) -> Seq<Seq<i32>>
    decreases upto,
{
    if upto <= 0 {
        Seq::empty()
    } else {
        structure_gradient_rows(species, srows, upto - 1) + structure_gradient_atom_rows(
            species[srows[upto - 1][0] as int],
            srows[upto - 1],
            species[srows[upto - 1][0] as int].len() as int,
        )
    }
}

/// The gradient rows of one sample are well-shaped and distinct.
pub proof fn lemma_structure_gradient_atom_rows_shape(list: Seq<i32>, srow: Seq<i32>, upto: int)
    requires
        srow.len() == 2,
        0 <= upto <= list.len(),
        list.len() <= i32::MAX,
    ensures
        forall|i: int|
            0 <= i < structure_gradient_atom_rows(list, srow, upto).len()
                ==> (#[trigger] structure_gradient_atom_rows(list, srow, upto)[i]).len() == 4
                && structure_gradient_atom_rows(list, srow, upto)[i][0] == srow[0]
                && structure_gradient_atom_rows(list, srow, upto)[i][1] == srow[1] && 0
                <= structure_gradient_atom_rows(list, srow, upto)[i][2]
                && structure_gradient_atom_rows(list, srow, upto)[i][2] < upto,
        forall|i: int, j: int|
            0 <= i < j < structure_gradient_atom_rows(list, srow, upto).len()
                ==> structure_gradient_atom_rows(list, srow, upto)[i]
                != structure_gradient_atom_rows(list, srow, upto)[j],
    decreases upto,
{
    if upto > 0 {
        lemma_structure_gradient_atom_rows_shape(list, srow, upto - 1);
        let prefix = structure_gradient_atom_rows(list, srow, upto - 1);
        let whole = structure_gradient_atom_rows(list, srow, upto);
        if list[upto - 1] == srow[1] {
            assert forall|i: int| 0 <= i < whole.len() implies (#[trigger] whole[i]).len() == 4
                && whole[i][0] == srow[0] && whole[i][1] == srow[1] && 0 <= whole[i][2]
                && whole[i][2] < upto by {
                if i < prefix.len() {
                    assert(whole[i] == prefix[i]);
                } else {
                    assert(whole[i][2] == (upto - 1) as i32);
                }
            }
            assert forall|i: int, j: int| 0 <= i < j < whole.len() implies whole[i] != whole[j] by {
                if j < prefix.len() {
                    assert(whole[i] == prefix[i] && whole[j] == prefix[j]);
                } else if i >= prefix.len() {
                    assert(whole[i][3] == (i - prefix.len()) as i32 && whole[j][3] == (j
                        - prefix.len()) as i32);
                } else {
                    assert(whole[i] == prefix[i]);
                    assert(whole[i][2] < upto - 1);
                    assert(whole[j][2] == (upto - 1) as i32);
                }
            }
        }
    }
}

/// The gradient rows of a request are well-shaped and distinct.
pub proof fn lemma_structure_gradient_rows_shape(
    species: Seq<Seq<i32>>,
    srows: Seq<Seq<i32>>,
    upto: int,
)
    requires
        0 <= upto <= srows.len(),
        forall|i: int| 0 <= i < srows.len() ==> (#[trigger] srows[i]).len() == 2,
        forall|i: int, j: int| 0 <= i < j < srows.len() ==> srows[i] != srows[j],
        forall|i: int|
            0 <= i < srows.len() ==> 0 <= (#[trigger] srows[i])[0] && (srows[i][0] as int)
                < species.len(),
        species_bounded(species),
    ensures
        forall|i: int|
            0 <= i < structure_gradient_rows(species, srows, upto).len()
                ==> (#[trigger] structure_gradient_rows(species, srows, upto)[i]).len() == 4,
        forall|i: int, j: int|
            0 <= i < j < structure_gradient_rows(species, srows, upto).len()
                ==> structure_gradient_rows(species, srows, upto)[i] != structure_gradient_rows(
                species,
                srows,
                upto,
            )[j],
    decreases upto,
{
    if upto > 0 {
        lemma_structure_gradient_rows_shape(species, srows, upto - 1);
        let srow = srows[upto - 1];
        let list = species[srow[0] as int];
        lemma_structure_gradient_atom_rows_shape(list, srow, list.len() as int);
        let prefix = structure_gradient_rows(species, srows, upto - 1);
        let seg = structure_gradient_atom_rows(list, srow, list.len() as int);
        let whole = structure_gradient_rows(species, srows, upto);
        // rows of earlier samples carry a different (structure, species)
        // pair in their first two columns
        assert forall|i: int| 0 <= i < prefix.len() implies (#[trigger] prefix[i]).len() == 4 && (
        exists|m: int|
            0 <= m < upto - 1 && prefix[i][0] == srows[m][0] && prefix[i][1]
                == srows[m][1]) by {
            lemma_structure_gradient_rows_prefix_cols(species, srows, upto - 1, i);
        }
        assert forall|i: int, j: int| 0 <= i < j < whole.len() implies whole[i] != whole[j] by {
            if j < prefix.len() {
                assert(whole[i] == prefix[i] && whole[j] == prefix[j]);
            } else if i >= prefix.len() {
                assert(whole[i] == seg[i - prefix.len()] && whole[j] == seg[j - prefix.len()]);
            } else {
                assert(whole[i] == prefix[i] && whole[j] == seg[j - prefix.len()]);
                let m = choose|m: int|
                    0 <= m < upto - 1 && prefix[i][0] == srows[m][0] && prefix[i][1]
                        == srows[m][1];
                assert(srows[m] != srow);
                assert(srows[m] =~= seq![srows[m][0], srows[m][1]] && srow =~= seq![
                    srow[0],
                    srow[1],
                ]);
                assert(srows[m][0] != srow[0] || srows[m][1] != srow[1]);
                assert(whole[j][0] == srow[0] && whole[j][1] == srow[1]);
            }
        }
    }
}

/// Every gradient row of the first `upto` samples carries the structure and
/// species of one of those samples.
pub proof fn lemma_structure_gradient_rows_prefix_cols(
    species: Seq<Seq<i32>>,
    srows: Seq<Seq<i32>>,
    upto: int,
    i: int,
)
    requires
        0 <= upto <= srows.len(),
        forall|m: int| 0 <= m < srows.len() ==> (#[trigger] srows[m]).len() == 2,
        forall|m: int|
            0 <= m < srows.len() ==> 0 <= (#[trigger] srows[m])[0] && (srows[m][0] as int)
                < species.len(),
        species_bounded(species),
        0 <= i < structure_gradient_rows(species, srows, upto).len(),
    ensures
        structure_gradient_rows(species, srows, upto)[i].len() == 4,
        exists|m: int|
            0 <= m < upto && structure_gradient_rows(species, srows, upto)[i][0] == srows[m][0]
                && structure_gradient_rows(species, srows, upto)[i][1] == srows[m][1],
    decreases upto,
{
    let prefix = structure_gradient_rows(species, srows, upto - 1);
    let srow = srows[upto - 1];
    let list = species[srow[0] as int];
    let seg = structure_gradient_atom_rows(list, srow, list.len() as int);
    if i < prefix.len() {
        lemma_structure_gradient_rows_prefix_cols(species, srows, upto - 1, i);
        let m = choose|m: int|
            0 <= m < upto - 1 && prefix[i][0] == srows[m][0] && prefix[i][1] == srows[m][1];
        assert(structure_gradient_rows(species, srows, upto)[i] == prefix[i]);
        assert(0 <= m < upto && structure_gradient_rows(species, srows, upto)[i][0] == srows[m][0]
            && structure_gradient_rows(species, srows, upto)[i][1] == srows[m][1]);
    } else {
        lemma_structure_gradient_atom_rows_shape(list, srow, list.len() as int);
        assert(structure_gradient_rows(species, srows, upto)[i] == seg[i - prefix.len()]);
        assert(structure_gradient_rows(species, srows, upto)[i][0] == srows[upto - 1][0]
            && structure_gradient_rows(species, srows, upto)[i][1] == srows[upto - 1][1]);
    }
}

/// `StructureSpeciesSamples` represents samples of full structures, one row
/// per chemical species present in each structure.
pub struct StructureSpeciesSamples;

impl StructureSpeciesSamples {
    /// Names of the sample columns.
    pub fn names(&self) -> (r: Vec<String>)
        ensures
            r@.map_values(|s: String| s@) == seq!["structure"@, "species"@],
    {
        let mut v: Vec<String> = Vec::new();
        v.push("structure".to_owned());
        v.push("species".to_owned());
        proof {
            assert(v@.map_values(|s: String| s@) =~= seq!["structure"@, "species"@]);
        }
        v
    }

    /// One `(structure, species)` row for every species present in every
    /// structure, sorted ascending.
    pub fn indexes<S: System>(&self, systems: &Vec<S>) -> (r: Labels)
        requires
            systems@.len() <= i32::MAX,
        ensures
            r.wf(),
            r.names_view() == seq!["structure"@, "species"@],
            r.spec_width() == 2,
            sorted_strict(r.rows_view()),
            forall|row: Seq<i32>|
                #[trigger] r.rows_view().contains(row) <==> structure_row_in(
                    species_of(systems@),
                    row,
                ),
    {
        let lists = crate::system::gather_species(systems);
        proof {
            assert(lists@.map_values(|v: Vec<i32>| v@) =~= species_of(systems@));
        }
        let set = structure_rows_from_species(&lists);
        let names = self.names();
        let ghost setview = set.rows_view();
        proof {
            assert(names@.len() == 2) by {
                assert(names@.map_values(|s: String| s@).len() == names@.len());
            }
            assert forall|i: int| 0 <= i < setview.len() implies (#[trigger] setview[i]).len()
                == 2 by {
                assert(set.rows_view().contains(setview[i]));
            }
        }
        let rows = set.into_rows();
        proof {
            let rview = rows@.map_values(|v: Vec<i32>| v@);
            assert(rview == setview);
            crate::labels::lemma_sorted_strict_unique(rview);
            assert forall|i: int| 0 <= i < rows@.len() implies (#[trigger] rows@[i])@.len()
                == names@.len() by {
                assert(rview[i] == rows@[i]@);
            }
            assert forall|i: int, j: int| 0 <= i < j < rows@.len() implies rows@[i]@
                != rows@[j]@ by {
                assert(rview[i] == rows@[i]@ && rview[j] == rows@[j]@);
            }
        }
        Labels::from_parts(names, rows)
    }

    /// Gradient rows for the given samples, in the caller's sample order:
    /// for a sample `(s, a)`, three spatial rows per atom of structure `s`
    /// whose species is `a`, in atom order.
    pub fn gradients_for<S: System>(&self, systems: &Vec<S>, samples: &Labels) -> (r: Labels)
        requires
            samples.wf(),
            samples.names_view() == seq!["structure"@, "species"@],
            samples.spec_width() == 2,
            forall|i: int|
                0 <= i < samples.rows_view().len() ==> 0 <= (#[trigger] samples.rows_view()[i])[0]
                    && (samples.rows_view()[i][0] as int) < systems@.len(),
            species_bounded(species_of(systems@)),
        ensures
            r.wf(),
            r.names_view() == seq!["structure"@, "species"@, "atom"@, "spatial"@],
            r.spec_width() == 4,
            r.rows_view() == structure_gradient_rows(
                species_of(systems@),
                samples.rows_view(),
                samples.rows_view().len() as int,
            ),
    {
        let ghost species = species_of(systems@);
        let ghost srows = samples.rows_view();
        let lists = crate::system::gather_species(systems);
        proof {
            assert(lists@.map_values(|v: Vec<i32>| v@) =~= species);
            assert(forall|i: int| 0 <= i < lists@.len() ==> (#[trigger] lists@[i])@ == species[i]);
        }
        let nreq = samples.count();
        let mut rows: Vec<Vec<i32>> = Vec::new();
        let mut m: usize = 0;
        proof {
            assert(rows@.map_values(|v: Vec<i32>| v@) =~= Seq::<Seq<i32>>::empty());
        }
        while m < nreq
            invariant
                nreq == srows.len(),
                m <= nreq,
                srows == samples.rows_view(),
                samples.wf(),
                samples.spec_width() == 2,
                forall|i: int|
                    0 <= i < srows.len() ==> 0 <= (#[trigger] srows[i])[0] && (srows[i][0] as int)
                        < systems@.len(),
                species == species_of(systems@),
                species.len() == systems@.len(),
                species_bounded(species),
                lists@.len() == systems@.len(),
                forall|i: int| 0 <= i < lists@.len() ==> (#[trigger] lists@[i])@ == species[i],
                rows@.map_values(|v: Vec<i32>| v@) == structure_gradient_rows(
                    species,
                    srows,
                    m as int,
                ),
            decreases nreq - m,
        {
            let srow = samples.row(m);
            proof {
                assert(srow@.len() == 2);
                assert(srow@ == srows[m as int]);
            }
            let si = srow[0];
            let alpha = srow[1];
            let list = &lists[si as usize];
            let ghost listv = species[srows[m as int][0] as int];
            proof {
                assert(list@ == listv);
            }
            let na = list.len();
            let mut a: usize = 0;
            proof {
                assert(structure_gradient_atom_rows(listv, srows[m as int], 0)
                    =~= Seq::<Seq<i32>>::empty());
                assert(rows@.map_values(|v: Vec<i32>| v@) + Seq::<Seq<i32>>::empty()
                    =~= rows@.map_values(|v: Vec<i32>| v@));
            }
            while a < na
                invariant
                    na == listv.len(),
                    a <= na,
                    na <= i32::MAX,
                    srows == samples.rows_view(),
                    m < srows.len(),
                    srows[m as int].len() == 2,
                    si == srows[m as int][0],
                    alpha == srows[m as int][1],
                    list@ == listv,
                    na == list@.len(),
                    rows@.map_values(|v: Vec<i32>| v@) == structure_gradient_rows(
                        species,
                        srows,
                        m as int,
                    ) + structure_gradient_atom_rows(listv, srows[m as int], a as int),
                decreases na - a,
            {
                let ghost before = rows@.map_values(|v: Vec<i32>| v@);
                let sp = list[a];
                if sp == alpha {
                    let mut r0: Vec<i32> = Vec::new();
                    r0.push(si);
                    r0.push(alpha);
                    r0.push(a as i32);
                    r0.push(0);
                    let mut r1: Vec<i32> = Vec::new();
                    r1.push(si);
                    r1.push(alpha);
                    r1.push(a as i32);
                    r1.push(1);
                    let mut r2: Vec<i32> = Vec::new();
                    r2.push(si);
                    r2.push(alpha);
                    r2.push(a as i32);
                    r2.push(2);
                    let ghost v0 = r0@;
                    let ghost v1 = r1@;
                    let ghost v2 = r2@;
                    rows.push(r0);
                    rows.push(r1);
                    rows.push(r2);
                    proof {
                        let srow2 = srows[m as int];
                        assert(v0 =~= seq![srow2[0], srow2[1], a as i32, 0i32]);
                        assert(v1 =~= seq![srow2[0], srow2[1], a as i32, 1i32]);
                        assert(v2 =~= seq![srow2[0], srow2[1], a as i32, 2i32]);
                        assert(rows@.map_values(|v: Vec<i32>| v@) =~= before + seq![v0, v1, v2]);
                        assert(structure_gradient_atom_rows(listv, srow2, a + 1)
                            == structure_gradient_atom_rows(listv, srow2, a as int) + seq![
                            seq![srow2[0], srow2[1], a as i32, 0i32],
                            seq![srow2[0], srow2[1], a as i32, 1i32],
                            seq![srow2[0], srow2[1], a as i32, 2i32],
                        ]);
                    }
                } else {
                    proof {
                        assert(structure_gradient_atom_rows(listv, srows[m as int], a + 1)
                            == structure_gradient_atom_rows(listv, srows[m as int], a as int));
                    }
                }
                a += 1;
            }
            m += 1;
        }
        let mut names: Vec<String> = Vec::new();
        names.push("structure".to_owned());
        names.push("species".to_owned());
        names.push("atom".to_owned());
        names.push("spatial".to_owned());
        proof {
            assert(names@.map_values(|s: String| s@) =~= seq![
                "structure"@,
                "species"@,
                "atom"@,
                "spatial"@,
            ]);
            assert(names@.len() == 4) by {
                assert(names@.map_values(|s: String| s@).len() == names@.len());
            }
            lemma_structure_gradient_rows_shape(species, srows, srows.len() as int);
            let rview = rows@.map_values(|v: Vec<i32>| v@);
            assert forall|i: int| 0 <= i < rows@.len() implies (#[trigger] rows@[i])@.len()
                == names@.len() by {
                assert(rview[i] == rows@[i]@);
            }
            assert forall|i: int, j: int| 0 <= i < j < rows@.len() implies rows@[i]@
                != rows@[j]@ by {
                assert(rview[i] == rows@[i]@ && rview[j] == rows@[j]@);
            }
        }
        Labels::from_parts(names, rows)
    }

    /// The samples of a batch together with their gradient rows.
    pub fn with_gradients<S: System>(&self, systems: &Vec<S>) -> (r: (Labels, Option<Labels>))
        requires
            systems@.len() <= i32::MAX,
            species_bounded(species_of(systems@)),
        ensures
            r.0.wf(),
            r.0.names_view() == seq!["structure"@, "species"@],
            sorted_strict(r.0.rows_view()),
            forall|row: Seq<i32>|
                #[trigger] r.0.rows_view().contains(row) <==> structure_row_in(
                    species_of(systems@),
                    row,
                ),
            r.1 matches Some(g) && g.wf() && g.names_view() == seq![
                "structure"@,
                "species"@,
                "atom"@,
                "spatial"@,
            ] && g.rows_view() == structure_gradient_rows(
                species_of(systems@),
                r.0.rows_view(),
                r.0.rows_view().len() as int,
            ),
    {
        let indexes = self.indexes(systems);
        proof {
            assert forall|i: int| 0 <= i < indexes.rows_view().len() implies 0 <= (
            #[trigger] indexes.rows_view()[i])[0] && (indexes.rows_view()[i][0] as int)
                < systems@.len() by {
                assert(indexes.rows_view().contains(indexes.rows_view()[i]));
                assert(structure_row_in(species_of(systems@), indexes.rows_view()[i]));
                let (s2, a2) = choose|s2: int, a2: int|
                    0 <= s2 < species_of(systems@).len() && 0 <= a2 < species_of(systems@)[s2].len()
                        && (s2 < species_of(systems@).len() as int || (s2 == species_of(
                        systems@,
                    ).len() as int && a2 < 0)) && indexes.rows_view()[i] == seq![
                        s2 as i32,
                        species_of(systems@)[s2][a2],
                    ];
                assert(indexes.rows_view()[i][0] == s2 as i32);
            }
        }
        let gradients = self.gradients_for(systems, &indexes);
        (indexes, Some(gradients))
    }
}

} // verus!

verus! {

/// `row` is an atom-centered sample produced by a pair, looking only at
/// systems before `s` and pairs before `k` inside system `s`: each pair
/// yields one row per endpoint, carrying the endpoint's and the other
/// atom's species.
pub open spec fn atom_pair_row_in_prefix(
    views: Seq<SysView>,
    s: int,
    k: int,
    row: Seq<i32>,
) -> bool {
    exists|s2: int, k2: int|
        0 <= s2 < views.len() && 0 <= k2 < views[s2].pairs.len() && (s2 < s || (s2 == s && k2 < k))
            && (row == seq![
            s2 as i32,
            views[s2].pairs[k2].first as i32,
            crate::neighbor_list::pair_species_first(views[s2], k2),
            crate::neighbor_list::pair_species_second(views[s2], k2),
        ] || row == seq![
            s2 as i32,
            views[s2].pairs[k2].second as i32,
            crate::neighbor_list::pair_species_second(views[s2], k2),
            crate::neighbor_list::pair_species_first(views[s2], k2),
        ])
}

/// `row` is a self-contribution sample of a center, looking only at
/// systems before `s` and centers before `c` inside system `s`.
pub open spec fn atom_self_row_in_prefix(
    views: Seq<SysView>,
    s: int,
    c: int,
    row: Seq<i32>,
) -> bool {
    exists|s2: int, c2: int|
        0 <= s2 < views.len() && 0 <= c2 < views[s2].species.len() && (s2 < s || (s2 == s && c2 < c))
            && row == seq![s2 as i32, c2 as i32, views[s2].species[c2], views[s2].species[c2]]
}

/// `row` is an atom-centered sample of the batch: produced by a pair, or,
/// with self-contributions on, by a center alone.
pub open spec fn atom_row_in(views: Seq<SysView>, self_contribution: bool, row: Seq<i32>) -> bool {
    ||| atom_pair_row_in_prefix(views, views.len() as int, 0, row)
    ||| (self_contribution && atom_self_row_in_prefix(views, views.len() as int, 0, row))
}

/// Collect the atom-centered sample rows of a batch in sorted order.
fn atom_rows_from_data(data: &Vec<SystemData>, self_contribution: bool) -> (r: SortedVecSet)
    requires
        crate::neighbor_list::data_wf(data@),
        crate::system::views_bounded(crate::system::data_views(data@)),
    ensures
        r.wf(),
        forall|row: Seq<i32>| #[trigger] r.rows_view().contains(row) ==> row.len() == 4,
        forall|row: Seq<i32>|
            #[trigger] r.rows_view().contains(row) <==> atom_row_in(
                crate::system::data_views(data@),
                self_contribution,
                row,
            ),
{
    let ghost views = crate::system::data_views(data@);
    proof {
        assert(views.len() == data@.len());
        assert(forall|s: int| 0 <= s < data@.len() ==> (#[trigger] views[s]) == data@[s].as_view());
    }
    let mut set = SortedVecSet::new();
    let ns = data.len();
    let mut s: usize = 0;
    while s < ns
        invariant
            ns == data@.len(),
            s <= ns,
            crate::neighbor_list::data_wf(data@),
            crate::system::views_bounded(views),
            views == crate::system::data_views(data@),
            views.len() == data@.len(),
            forall|s2: int|
                0 <= s2 < data@.len() ==> (#[trigger] views[s2]) == data@[s2].as_view(),
            set.wf(),
            forall|row: Seq<i32>| #[trigger] set.rows_view().contains(row) ==> row.len() == 4,
            forall|row: Seq<i32>|
                #[trigger] set.rows_view().contains(row) <==> atom_pair_row_in_prefix(
                    views,
                    s as int,
                    0,
                    row,
                ),
        decreases ns - s,
    {
        let np = data[s].pairs.len();
        let mut k: usize = 0;
        while k < np
            invariant
                ns == data@.len(),
                s < ns,
                np == data@[s as int].pairs@.len(),
                k <= np,
                crate::neighbor_list::data_wf(data@),
                crate::system::views_bounded(views),
                views == crate::system::data_views(data@),
                views.len() == data@.len(),
                forall|s2: int|
                    0 <= s2 < data@.len() ==> (#[trigger] views[s2]) == data@[s2].as_view(),
                set.wf(),
                forall|row: Seq<i32>| #[trigger] set.rows_view().contains(row) ==> row.len() == 4,
                forall|row: Seq<i32>|
                    #[trigger] set.rows_view().contains(row) <==> atom_pair_row_in_prefix(
                        views,
                        s as int,
                        k as int,
                        row,
                    ),
            decreases np - k,
        {
            let p = data[s].pairs[k];
            proof {
                assert(views[s as int] == data@[s as int].as_view());
                assert(views[s as int].bounded());
                assert(data@[s as int].wf());
                assert(p == views[s as int].pairs[k as int]);
                assert(p.first < data@[s as int].species@.len());
                assert(p.second < data@[s as int].species@.len());
            }
            let spf = data[s].species[p.first];
            let sps = data[s].species[p.second];
            proof {
                assert(spf == crate::neighbor_list::pair_species_first(views[s as int], k as int));
                assert(sps == crate::neighbor_list::pair_species_second(views[s as int], k as int));
            }
            let mut row1: Vec<i32> = Vec::new();
            row1.push(s as i32);
            row1.push(p.first as i32);
            row1.push(spf);
            row1.push(sps);
            let mut row2: Vec<i32> = Vec::new();
            row2.push(s as i32);
            row2.push(p.second as i32);
            row2.push(sps);
            row2.push(spf);
            let ghost v1 = row1@;
            let ghost v2 = row2@;
            proof {
                assert(v1 =~= seq![s as i32, p.first as i32, spf, sps]);
                assert(v2 =~= seq![s as i32, p.second as i32, sps, spf]);
            }
            set.insert(row1);
            set.insert(row2);
            proof {
                assert forall|row: Seq<i32>| #[trigger] set.rows_view().contains(
                    row,
                ) implies atom_pair_row_in_prefix(views, s as int, k + 1, row) by {
                    if row == v1 || row == v2 {
                    } else {
                        assert(atom_pair_row_in_prefix(views, s as int, k as int, row));
                        let (s2, k2) = choose|s2: int, k2: int|
                            0 <= s2 < views.len() && 0 <= k2 < views[s2].pairs.len() && (s2 < s || (
                            s2 == s && k2 < k)) && (row == seq![
                                s2 as i32,
                                views[s2].pairs[k2].first as i32,
                                crate::neighbor_list::pair_species_first(views[s2], k2),
                                crate::neighbor_list::pair_species_second(views[s2], k2),
                            ] || row == seq![
                                s2 as i32,
                                views[s2].pairs[k2].second as i32,
                                crate::neighbor_list::pair_species_second(views[s2], k2),
                                crate::neighbor_list::pair_species_first(views[s2], k2),
                            ]);
                        assert(s2 < s || (s2 == s && k2 < k + 1));
                    }
                }
                assert forall|row: Seq<i32>|
                    atom_pair_row_in_prefix(views, s as int, k + 1, row) implies #[trigger] set.rows_view().contains(
                    row,
                ) by {
                    let (s2, k2) = choose|s2: int, k2: int|
                        0 <= s2 < views.len() && 0 <= k2 < views[s2].pairs.len() && (s2 < s || (s2
                            == s && k2 < k + 1)) && (row == seq![
                            s2 as i32,
                            views[s2].pairs[k2].first as i32,
                            crate::neighbor_list::pair_species_first(views[s2], k2),
                            crate::neighbor_list::pair_species_second(views[s2], k2),
                        ] || row == seq![
                            s2 as i32,
                            views[s2].pairs[k2].second as i32,
                            crate::neighbor_list::pair_species_second(views[s2], k2),
                            crate::neighbor_list::pair_species_first(views[s2], k2),
                        ]);
                    if s2 == s && k2 == k {
                        assert(row == v1 || row == v2);
                    } else {
                        assert(atom_pair_row_in_prefix(views, s as int, k as int, row));
                    }
                }
            }
            k += 1;
        }
        proof {
            assert forall|row: Seq<i32>|
                atom_pair_row_in_prefix(views, s as int, np as int, row) == atom_pair_row_in_prefix(
                    views,
                    s + 1,
                    0,
                    row,
                ) by {
                if atom_pair_row_in_prefix(views, s as int, np as int, row) {
                    let (s2, k2) = choose|s2: int, k2: int|
                        0 <= s2 < views.len() && 0 <= k2 < views[s2].pairs.len() && (s2 < s || (s2
                            == s && k2 < np)) && (row == seq![
                            s2 as i32,
                            views[s2].pairs[k2].first as i32,
                            crate::neighbor_list::pair_species_first(views[s2], k2),
                            crate::neighbor_list::pair_species_second(views[s2], k2),
                        ] || row == seq![
                            s2 as i32,
                            views[s2].pairs[k2].second as i32,
                            crate::neighbor_list::pair_species_second(views[s2], k2),
                            crate::neighbor_list::pair_species_first(views[s2], k2),
                        ]);
                    assert(s2 < s + 1);
                    assert(atom_pair_row_in_prefix(views, s + 1, 0, row));
                }
                if atom_pair_row_in_prefix(views, s + 1, 0, row) {
                    let (s2, k2) = choose|s2: int, k2: int|
                        0 <= s2 < views.len() && 0 <= k2 < views[s2].pairs.len() && (s2 < s + 1 || (
                        s2 == s + 1 && k2 < 0)) && (row == seq![
                            s2 as i32,
                            views[s2].pairs[k2].first as i32,
                            crate::neighbor_list::pair_species_first(views[s2], k2),
                            crate::neighbor_list::pair_species_second(views[s2], k2),
                        ] || row == seq![
                            s2 as i32,
                            views[s2].pairs[k2].second as i32,
                            crate::neighbor_list::pair_species_second(views[s2], k2),
                            crate::neighbor_list::pair_species_first(views[s2], k2),
                        ]);
                    assert(s2 <= s);
                    if s2 == s {
                        assert(views[s as int] == data@[s as int].as_view());
                        assert(k2 < np);
                    }
                    assert(atom_pair_row_in_prefix(views, s as int, np as int, row));
                }
            }
        }
        s += 1;
    }
    if !self_contribution {
        return set;
    }
    // self contributions: every center is its own neighbor
    let mut s2: usize = 0;
    while s2 < ns
        invariant
            ns == data@.len(),
            s2 <= ns,
            crate::neighbor_list::data_wf(data@),
            crate::system::views_bounded(views),
            views == crate::system::data_views(data@),
            views.len() == data@.len(),
            forall|s3: int|
                0 <= s3 < data@.len() ==> (#[trigger] views[s3]) == data@[s3].as_view(),
            set.wf(),
            forall|row: Seq<i32>| #[trigger] set.rows_view().contains(row) ==> row.len() == 4,
            forall|row: Seq<i32>|
                #[trigger] set.rows_view().contains(row) <==> (atom_pair_row_in_prefix(
                    views,
                    views.len() as int,
                    0,
                    row,
                ) || atom_self_row_in_prefix(views, s2 as int, 0, row)),
        decreases ns - s2,
    {
        let nc = data[s2].species.len();
        let mut c: usize = 0;
        while c < nc
            invariant
                ns == data@.len(),
                s2 < ns,
                nc == data@[s2 as int].species@.len(),
                c <= nc,
                crate::neighbor_list::data_wf(data@),
                crate::system::views_bounded(views),
                views == crate::system::data_views(data@),
                views.len() == data@.len(),
                forall|s3: int|
                    0 <= s3 < data@.len() ==> (#[trigger] views[s3]) == data@[s3].as_view(),
                set.wf(),
                forall|row: Seq<i32>| #[trigger] set.rows_view().contains(row) ==> row.len() == 4,
                forall|row: Seq<i32>|
                    #[trigger] set.rows_view().contains(row) <==> (atom_pair_row_in_prefix(
                        views,
                        views.len() as int,
                        0,
                        row,
                    ) || atom_self_row_in_prefix(views, s2 as int, c as int, row)),
            decreases nc - c,
        {
            let sp = data[s2].species[c];
            proof {
                assert(views[s2 as int] == data@[s2 as int].as_view());
                assert(views[s2 as int].bounded());
                assert(sp == views[s2 as int].species[c as int]);
            }
            let mut rowv: Vec<i32> = Vec::new();
            rowv.push(s2 as i32);
            rowv.push(c as i32);
            rowv.push(sp);
            rowv.push(sp);
            let ghost vnew = rowv@;
            proof {
                assert(vnew =~= seq![s2 as i32, c as i32, sp, sp]);
            }
            set.insert(rowv);
            proof {
                assert forall|row: Seq<i32>| #[trigger] set.rows_view().contains(row) implies (
                atom_pair_row_in_prefix(views, views.len() as int, 0, row)
                    || atom_self_row_in_prefix(views, s2 as int, c + 1, row)) by {
                    if row == vnew {
                    } else {
                        if atom_self_row_in_prefix(views, s2 as int, c as int, row) {
                            let (s3, c3) = choose|s3: int, c3: int|
                                0 <= s3 < views.len() && 0 <= c3 < views[s3].species.len() && (s3
                                    < s2 || (s3 == s2 && c3 < c)) && row == seq![
                                    s3 as i32,
                                    c3 as i32,
                                    views[s3].species[c3],
                                    views[s3].species[c3],
                                ];
                            assert(s3 < s2 || (s3 == s2 && c3 < c + 1));
                        }
                    }
                }
                assert forall|row: Seq<i32>|
                    (atom_pair_row_in_prefix(views, views.len() as int, 0, row)
                        || atom_self_row_in_prefix(views, s2 as int, c + 1, row)) implies
                    #[trigger] set.rows_view().contains(row) by {
                    if atom_self_row_in_prefix(views, s2 as int, c + 1, row) {
                        let (s3, c3) = choose|s3: int, c3: int|
                            0 <= s3 < views.len() && 0 <= c3 < views[s3].species.len() && (s3 < s2
                                || (s3 == s2 && c3 < c + 1)) && row == seq![
                                s3 as i32,
                                c3 as i32,
                                views[s3].species[c3],
                                views[s3].species[c3],
                            ];
                        if s3 == s2 && c3 == c {
                            assert(row == vnew);
                        } else {
                            assert(atom_self_row_in_prefix(views, s2 as int, c as int, row));
                        }
                    }
                }
            }
            c += 1;
        }
        proof {
            assert forall|row: Seq<i32>|
                atom_self_row_in_prefix(views, s2 as int, nc as int, row) == atom_self_row_in_prefix(
                    views,
                    s2 + 1,
                    0,
                    row,
                ) by {
                if atom_self_row_in_prefix(views, s2 as int, nc as int, row) {
                    let (s3, c3) = choose|s3: int, c3: int|
                        0 <= s3 < views.len() && 0 <= c3 < views[s3].species.len() && (s3 < s2 || (
                        s3 == s2 && c3 < nc)) && row == seq![
                            s3 as i32,
                            c3 as i32,
                            views[s3].species[c3],
                            views[s3].species[c3],
                        ];
                    assert(s3 < s2 + 1);
                    assert(atom_self_row_in_prefix(views, s2 + 1, 0, row));
                }
                if atom_self_row_in_prefix(views, s2 + 1, 0, row) {
                    let (s3, c3) = choose|s3: int, c3: int|
                        0 <= s3 < views.len() && 0 <= c3 < views[s3].species.len() && (s3 < s2 + 1
                            || (s3 == s2 + 1 && c3 < 0)) && row == seq![
                            s3 as i32,
                            c3 as i32,
                            views[s3].species[c3],
                            views[s3].species[c3],
                        ];
                    assert(s3 <= s2);
                    if s3 == s2 {
                        assert(views[s2 as int] == data@[s2 as int].as_view());
                        assert(c3 < nc);
                    }
                    assert(atom_self_row_in_prefix(views, s2 as int, nc as int, row));
                }
            }
        }
        s2 += 1;
    }
    set
}

} // verus!

verus! {

/// Gradient rows one requested atom-centered sample owes from the first
/// `upto` pairs around its center: a row for the far end of every pair
/// whose far-end species is the requested neighbor species.
pub open spec fn atom_gradient_pair_rows(
    v: SysView,
    rrow: Seq<i32>,
    pc: Seq<crate::system::Pair>,
    upto: int,
) -> Seq<Seq<i32>>
    decreases upto,
{
    if upto <= 0 {
        Seq::empty()
    } else {
        let prefix = atom_gradient_pair_rows(v, rrow, pc, upto - 1);
        let p = pc[upto - 1];
        if p.first as i32 == rrow[1] && v.species[p.second as int] == rrow[3] {
            prefix.push(
                seq![
                    rrow[0],
                    p.first as i32,
                    v.species[p.first as int],
                    v.species[p.second as int],
                    p.second as i32,
                ],
            )
        } else if p.second as i32 == rrow[1] && v.species[p.first as int] == rrow[3] {
            prefix.push(
                seq![
                    rrow[0],
                    p.second as i32,
                    v.species[p.second as int],
                    v.species[p.first as int],
                    p.first as i32,
                ],
            )
        } else {
            prefix
        }
    }
}

/// Gradient rows generated by the first `upto` requested samples, in
/// request order, repeats not yet dropped.
pub open spec fn atom_gradient_gen(
    views: Seq<SysView>,
    srows: Seq<Seq<i32>>,
    upto: int,
) -> Seq<Seq<i32>>
    decreases upto,
{
    if upto <= 0 {
        Seq::empty()
    } else {
        let v = views[srows[upto - 1][0] as int];
        let pc = crate::system::spec_pairs_containing(v.pairs, srows[upto - 1][1] as usize);
        atom_gradient_gen(views, srows, upto - 1) + atom_gradient_pair_rows(
            v,
            srows[upto - 1],
            pc,
            pc.len() as int,
        )
    }
}

/// Every generated atom gradient row has five entries.
pub proof fn lemma_atom_gradient_pair_rows_shape(
    v: SysView,
    rrow: Seq<i32>,
    pc: Seq<crate::system::Pair>,
    upto: int,
)
    requires
        0 <= upto <= pc.len(),
    ensures
        forall|i: int|
            0 <= i < atom_gradient_pair_rows(v, rrow, pc, upto).len()
                ==> (#[trigger] atom_gradient_pair_rows(v, rrow, pc, upto)[i]).len() == 5,
    decreases upto,
{
    if upto > 0 {
        lemma_atom_gradient_pair_rows_shape(v, rrow, pc, upto - 1);
        let prefix = atom_gradient_pair_rows(v, rrow, pc, upto - 1);
        let whole = atom_gradient_pair_rows(v, rrow, pc, upto);
        assert forall|i: int| 0 <= i < whole.len() implies (#[trigger] whole[i]).len() == 5 by {
            if i < prefix.len() {
                assert(whole[i] == prefix[i]);
            } else {
                assert(i == prefix.len());
            }
        }
    }
}

/// Every generated atom gradient row has five entries.
pub proof fn lemma_atom_gradient_gen_shape(views: Seq<SysView>, srows: Seq<Seq<i32>>, upto: int)
    requires
        0 <= upto <= srows.len(),
        forall|i: int|
            0 <= i < srows.len() ==> 0 <= (#[trigger] srows[i])[0] && (srows[i][0] as int)
                < views.len(),
    ensures
        forall|i: int|
            0 <= i < atom_gradient_gen(views, srows, upto).len()
                ==> (#[trigger] atom_gradient_gen(views, srows, upto)[i]).len() == 5,
    decreases upto,
{
    if upto > 0 {
        lemma_atom_gradient_gen_shape(views, srows, upto - 1);
        let v = views[srows[upto - 1][0] as int];
        let pc = crate::system::spec_pairs_containing(v.pairs, srows[upto - 1][1] as usize);
        lemma_atom_gradient_pair_rows_shape(v, srows[upto - 1], pc, pc.len() as int);
        let prefix = atom_gradient_gen(views, srows, upto - 1);
        let seg = atom_gradient_pair_rows(v, srows[upto - 1], pc, pc.len() as int);
        let whole = atom_gradient_gen(views, srows, upto);
        assert forall|i: int| 0 <= i < whole.len() implies (#[trigger] whole[i]).len() == 5 by {
            if i < prefix.len() {
                assert(whole[i] == prefix[i]);
            } else {
                assert(whole[i] == seg[i - prefix.len()]);
            }
        }
    }
}

/// `AtomSpeciesSamples` represents atom-centered environments: each atom of
/// a structure described through the species of its neighbors inside a
/// spherical cutoff.
pub struct AtomSpeciesSamples {
    /// Spherical cutoff of the environments, as a binary64 bit pattern.
    cutoff: u64,
    /// Is the central atom considered to be its own neighbor?
    self_contribution: bool,
}

impl AtomSpeciesSamples {
    /// The cutoff this builder was created with.
    pub closed spec fn spec_cutoff(&self) -> u64 {
        self.cutoff
    }

    /// Does this builder add self contributions?
    pub closed spec fn spec_self_contribution(&self) -> bool {
        self.self_contribution
    }

    /// A new builder with the given cutoff, excluding self contributions.
    pub fn new(cutoff: u64) -> (r: AtomSpeciesSamples)
        requires
            crate::bits::cutoff_is_valid(cutoff),
        ensures
            r.spec_cutoff() == cutoff,
            !r.spec_self_contribution(),
    {
        AtomSpeciesSamples { cutoff, self_contribution: false }
    }

    /// A new builder with the given cutoff, including self contributions.
    pub fn with_self_contribution(cutoff: u64) -> (r: AtomSpeciesSamples)
        requires
            crate::bits::cutoff_is_valid(cutoff),
        ensures
            r.spec_cutoff() == cutoff,
            r.spec_self_contribution(),
    {
        AtomSpeciesSamples { cutoff, self_contribution: true }
    }

    /// Names of the sample columns.
    pub fn names(&self) -> (r: Vec<String>)
        ensures
            r@.map_values(|s: String| s@) == seq![
                "structure"@,
                "center"@,
                "species_center"@,
                "species_neighbor"@,
            ],
    {
        let mut v: Vec<String> = Vec::new();
        v.push("structure".to_owned());
        v.push("center".to_owned());
        v.push("species_center".to_owned());
        v.push("species_neighbor".to_owned());
        proof {
            assert(v@.map_values(|s: String| s@) =~= seq![
                "structure"@,
                "center"@,
                "species_center"@,
                "species_neighbor"@,
            ]);
        }
        v
    }

    /// The atom-centered sample rows of a batch, sorted ascending: two rows
    /// per pair (one per endpoint) and, with self contributions, one row
    /// per center pairing it with its own species.
    pub fn indexes<S: System>(&self, systems: &mut Vec<S>) -> (r: Result<Labels, crate::Error>)
        requires
            crate::bits::cutoff_is_valid(self.spec_cutoff()),
            crate::system::views_bounded(
                crate::system::views_of(systems@, self.spec_cutoff()),
            ),
        ensures
            crate::system::systems_preserved(old(systems)@, final(systems)@),
            r matches Ok(labels) ==> labels.wf() && labels.names_view() == seq![
                "structure"@,
                "center"@,
                "species_center"@,
                "species_neighbor"@,
            ] && labels.spec_width() == 4 && sorted_strict(labels.rows_view()) && forall|
                row: Seq<i32>,
            |
                #[trigger] labels.rows_view().contains(row) <==> atom_row_in(
                    crate::system::views_of(old(systems)@, self.spec_cutoff()),
                    self.spec_self_contribution(),
                    row,
                ),
            r is Ok ==> crate::system::views_wf(
                crate::system::views_of(old(systems)@, self.spec_cutoff()),
            ),
            r matches Err(e) ==> (e matches crate::Error::NeighborList(_)),
    {
        let data = match crate::system::gather(systems, self.cutoff) {
            Ok(d) => d,
            Err(e) => {
                return Err(e);
            },
        };
        proof {
            crate::system::lemma_views_wf_of_data(data@);
        }
        let set = atom_rows_from_data(&data, self.self_contribution);
        let names = self.names();
        let ghost setview = set.rows_view();
        proof {
            assert(names@.len() == 4) by {
                assert(names@.map_values(|s: String| s@).len() == names@.len());
            }
            assert forall|i: int| 0 <= i < setview.len() implies (#[trigger] setview[i]).len()
                == 4 by {
                assert(set.rows_view().contains(setview[i]));
            }
        }
        let rows = set.into_rows();
        proof {
            let rview = rows@.map_values(|v: Vec<i32>| v@);
            assert(rview == setview);
            crate::labels::lemma_sorted_strict_unique(rview);
            assert forall|i: int| 0 <= i < rows@.len() implies (#[trigger] rows@[i])@.len()
                == names@.len() by {
                assert(rview[i] == rows@[i]@);
            }
            assert forall|i: int, j: int| 0 <= i < j < rows@.len() implies rows@[i]@
                != rows@[j]@ by {
                assert(rview[i] == rows@[i]@ && rview[j] == rows@[j]@);
            }
        }
        Ok(Labels::from_parts(names, rows))
    }

    /// Gradient rows for the given samples, in the caller's sample order:
    /// for a sample `(s, c, a, b)`, three spatial rows per pair around `c`
    /// whose far end carries species `b`, repeats dropped while keeping
    /// first-appearance order.
    pub fn gradients_for<S: System>(&self, systems: &mut Vec<S>, samples: &Labels) -> (r: Result<
        Labels,
        crate::Error,
    >)
        requires
            crate::bits::cutoff_is_valid(self.spec_cutoff()),
            crate::system::views_bounded(
                crate::system::views_of(systems@, self.spec_cutoff()),
            ),
            samples.wf(),
            samples.names_view() == seq![
                "structure"@,
                "center"@,
                "species_center"@,
                "species_neighbor"@,
            ],
            samples.spec_width() == 4,
            forall|i: int|
                0 <= i < samples.rows_view().len() ==> {
                    let row = #[trigger] samples.rows_view()[i];
                    &&& 0 <= row[0]
                    &&& (row[0] as int) < systems@.len()
                    &&& 0 <= row[1]
                    &&& (row[1] as int) < systems@[row[0] as int].spec_species().len()
                },
        ensures
            crate::system::systems_preserved(old(systems)@, final(systems)@),
            r matches Ok(labels) ==> labels.wf() && labels.names_view() == seq![
                "structure"@,
                "center"@,
                "species_center"@,
                "species_neighbor"@,
                "neighbor"@,
                "spatial"@,
            ] && labels.spec_width() == 6 && labels.rows_view() == expand3(
                dedup_rows(
                    atom_gradient_gen(
                        crate::system::views_of(old(systems)@, self.spec_cutoff()),
                        samples.rows_view(),
                        samples.rows_view().len() as int,
                    ),
                ),
            ),
            r matches Err(e) ==> (e matches crate::Error::NeighborList(_)),
    {
        let ghost views = crate::system::views_of(systems@, self.cutoff);
        let ghost srows = samples.rows_view();
        let data = match crate::system::gather(systems, self.cutoff) {
            Ok(d) => d,
            Err(e) => {
                return Err(e);
            },
        };
        proof {
            assert(crate::system::data_views(data@) == views);
            assert(views.len() == data@.len());
            assert(forall|i: int|
                0 <= i < data@.len() ==> (#[trigger] views[i]) == data@[i].as_view());
            assert forall|i: int| 0 <= i < srows.len() implies 0 <= (#[trigger] srows[i])[0] && (
            srows[i][0] as int) < views.len() && 0 <= srows[i][1] && (srows[i][1] as int)
                < views[srows[i][0] as int].species.len() by {
                assert(views[srows[i][0] as int] == crate::system::views_of(
                    old(systems)@,
                    self.spec_cutoff(),
                )[srows[i][0] as int]);
            }
        }
        let mut set = index_set_new();
        let nreq = samples.count();
        let mut m: usize = 0;
        proof {
            assert(index_set_rows(set) =~= dedup_rows(atom_gradient_gen(views, srows, 0)));
        }
        while m < nreq
            invariant
                nreq == srows.len(),
                m <= nreq,
                srows == samples.rows_view(),
                samples.wf(),
                samples.spec_width() == 4,
                views.len() == data@.len(),
                crate::neighbor_list::data_wf(data@),
                crate::system::views_bounded(views),
                forall|i: int|
                    0 <= i < data@.len() ==> (#[trigger] views[i]) == data@[i].as_view(),
                forall|i: int|
                    0 <= i < srows.len() ==> 0 <= (#[trigger] srows[i])[0] && (srows[i][0] as int)
                        < views.len() && 0 <= srows[i][1] && (srows[i][1] as int)
                        < views[srows[i][0] as int].species.len(),
                index_set_rows(set) == dedup_rows(atom_gradient_gen(views, srows, m as int)),
            decreases nreq - m,
        {
            let srow = samples.row(m);
            proof {
                assert(srow@ == srows[m as int]);
                assert(srow@.len() == 4);
            }
            let si = srow[0];
            let center = srow[1] as usize;
            let beta = srow[3];
            let ghost v = views[srows[m as int][0] as int];
            let pc = data[si as usize].pairs_containing(center);
            proof {
                assert(data@[si as int].as_view() == v);
                assert(pc@ == crate::system::spec_pairs_containing(v.pairs, center));
                assert(data@[si as int].wf());
                assert(v.bounded());
                assert forall|t: int| 0 <= t < pc@.len() implies (#[trigger] pc@[t]).first
                    < v.species.len() && pc@[t].second < v.species.len() by {
                    crate::system::lemma_pairs_containing_wf(v.pairs, center, v.species.len());
                }
            }
            let npc = pc.len();
            let mut t: usize = 0;
            proof {
                assert(atom_gradient_pair_rows(v, srows[m as int], pc@, 0)
                    =~= Seq::<Seq<i32>>::empty());
                assert(atom_gradient_gen(views, srows, m as int) + Seq::<Seq<i32>>::empty()
                    =~= atom_gradient_gen(views, srows, m as int));
            }
            while t < npc
                invariant
                    npc == pc@.len(),
                    t <= npc,
                    srows == samples.rows_view(),
                    m < srows.len(),
                    srows[m as int].len() == 4,
                    views.len() == data@.len(),
                    0 <= si,
                    (si as int) < data@.len(),
                    data@[si as int].as_view() == v,
                    crate::neighbor_list::data_wf(data@),
                    si == srows[m as int][0],
                    srow@ == srows[m as int],
                    center as int == srows[m as int][1] as int,
                    center == srows[m as int][1] as usize,
                    beta == srows[m as int][3],
                    v == views[srows[m as int][0] as int],
                    v.bounded(),
                    forall|t2: int|
                        0 <= t2 < pc@.len() ==> (#[trigger] pc@[t2]).first < v.species.len()
                            && pc@[t2].second < v.species.len(),
                    index_set_rows(set) == dedup_rows(
                        atom_gradient_gen(views, srows, m as int) + atom_gradient_pair_rows(
                            v,
                            srows[m as int],
                            pc@,
                            t as int,
                        ),
                    ),
                decreases npc - t,
            {
                let ghost gen_before = atom_gradient_gen(views, srows, m as int)
                    + atom_gradient_pair_rows(v, srows[m as int], pc@, t as int);
                let p = pc[t];
                let vdata = &data[si as usize];
                proof {
                    assert(p == pc@[t as int]);
                    assert(vdata.as_view() == v);
                    assert(p.first < vdata.species@.len() && p.second < vdata.species@.len());
                }
                if p.first as i32 == srow[1] && vdata.species[p.second] == beta {
                    let mut rowv: Vec<i32> = Vec::new();
                    rowv.push(si);
                    rowv.push(p.first as i32);
                    rowv.push(vdata.species[p.first]);
                    rowv.push(vdata.species[p.second]);
                    rowv.push(p.second as i32);
                    let ghost newrow = rowv@;
                    proof {
                        let rr = srows[m as int];
                        assert(newrow =~= seq![
                            rr[0],
                            p.first as i32,
                            v.species[p.first as int],
                            v.species[p.second as int],
                            p.second as i32,
                        ]);
                        assert(atom_gradient_pair_rows(v, rr, pc@, t + 1)
                            == atom_gradient_pair_rows(v, rr, pc@, t as int).push(newrow));
                        assert(gen_before.push(newrow) =~= atom_gradient_gen(views, srows, m as int)
                            + atom_gradient_pair_rows(v, rr, pc@, t + 1));
                        assert(gen_before.push(newrow).drop_last() =~= gen_before);
                    }
                    index_set_insert(&mut set, rowv);
                } else if p.second as i32 == srow[1] && vdata.species[p.first] == beta {
                    let mut rowv: Vec<i32> = Vec::new();
                    rowv.push(si);
                    rowv.push(p.second as i32);
                    rowv.push(vdata.species[p.second]);
                    rowv.push(vdata.species[p.first]);
                    rowv.push(p.first as i32);
                    let ghost newrow = rowv@;
                    proof {
                        let rr = srows[m as int];
                        assert(newrow =~= seq![
                            rr[0],
                            p.second as i32,
                            v.species[p.second as int],
                            v.species[p.first as int],
                            p.first as i32,
                        ]);
                        assert(!(p.first as i32 == rr[1] && v.species[p.second as int] == rr[3]));
                        assert(atom_gradient_pair_rows(v, rr, pc@, t + 1)
                            == atom_gradient_pair_rows(v, rr, pc@, t as int).push(newrow));
                        assert(gen_before.push(newrow) =~= atom_gradient_gen(views, srows, m as int)
                            + atom_gradient_pair_rows(v, rr, pc@, t + 1));
                        assert(gen_before.push(newrow).drop_last() =~= gen_before);
                    }
                    index_set_insert(&mut set, rowv);
                } else {
                    proof {
                        let rr = srows[m as int];
                        assert(atom_gradient_pair_rows(v, rr, pc@, t + 1)
                            == atom_gradient_pair_rows(v, rr, pc@, t as int));
                    }
                }
                t += 1;
            }
            proof {
                assert(atom_gradient_gen(views, srows, m + 1) == atom_gradient_gen(
                    views,
                    srows,
                    m as int,
                ) + atom_gradient_pair_rows(
                    v,
                    srows[m as int],
                    crate::system::spec_pairs_containing(v.pairs, srows[m as int][1] as usize),
                    crate::system::spec_pairs_containing(
                        v.pairs,
                        srows[m as int][1] as usize,
                    ).len() as int,
                ));
                assert(pc@ == crate::system::spec_pairs_containing(
                    v.pairs,
                    srows[m as int][1] as usize,
                ));
            }
            m += 1;
        }
        let base_rows = index_set_into_rows(set);
        let expanded = append_spatial(base_rows);
        let mut names: Vec<String> = Vec::new();
        names.push("structure".to_owned());
        names.push("center".to_owned());
        names.push("species_center".to_owned());
        names.push("species_neighbor".to_owned());
        names.push("neighbor".to_owned());
        names.push("spatial".to_owned());
        proof {
            assert(names@.map_values(|s: String| s@) =~= seq![
                "structure"@,
                "center"@,
                "species_center"@,
                "species_neighbor"@,
                "neighbor"@,
                "spatial"@,
            ]);
            assert(names@.len() == 6) by {
                assert(names@.map_values(|s: String| s@).len() == names@.len());
            }
            let gen = atom_gradient_gen(views, srows, srows.len() as int);
            let base = dedup_rows(gen);
            lemma_dedup_rows(gen);
            lemma_atom_gradient_gen_shape(views, srows, srows.len() as int);
            assert forall|i: int| 0 <= i < base.len() implies (#[trigger] base[i]).len() == 5 by {
                assert(base.contains(base[i]));
                assert(gen.contains(base[i]));
                let g = choose|g: int| 0 <= g < gen.len() && gen[g] == base[i];
            }
            lemma_expand3_shape(base, 5);
            let eview = expanded@.map_values(|v2: Vec<i32>| v2@);
            assert(eview == expand3(base)) by {
                assert(base_rows@.map_values(|v2: Vec<i32>| v2@) == base);
            }
            assert forall|i: int| 0 <= i < expanded@.len() implies (#[trigger] expanded@[i])@.len()
                == names@.len() by {
                assert(eview[i] == expanded@[i]@);
            }
            assert forall|i: int, j: int| 0 <= i < j < expanded@.len() implies expanded@[i]@
                != expanded@[j]@ by {
                assert(eview[i] == expanded@[i]@ && eview[j] == expanded@[j]@);
            }
        }
        Ok(Labels::from_parts(names, expanded))
    }

    /// The samples of a batch together with their gradient rows.
    pub fn with_gradients<S: System>(&self, systems: &mut Vec<S>) -> (r: Result<
        (Labels, Option<Labels>),
        crate::Error,
    >)
        requires
            crate::bits::cutoff_is_valid(self.spec_cutoff()),
            crate::system::views_bounded(
                crate::system::views_of(systems@, self.spec_cutoff()),
            ),
        ensures
            crate::system::systems_preserved(old(systems)@, final(systems)@),
            r matches Err(e) ==> (e matches crate::Error::NeighborList(_)),
    {
        let ghost views = crate::system::views_of(systems@, self.cutoff);
        let samples = match self.indexes(systems) {
            Ok(s) => s,
            Err(e) => {
                return Err(e);
            },
        };
        proof {
            crate::system::lemma_views_preserved(old(systems)@, systems@, self.spec_cutoff());
            assert forall|i: int| 0 <= i < samples.rows_view().len() implies {
                let row = #[trigger] samples.rows_view()[i];
                &&& 0 <= row[0]
                &&& (row[0] as int) < systems@.len()
                &&& 0 <= row[1]
                &&& (row[1] as int) < systems@[row[0] as int].spec_species().len()
            } by {
                let row = samples.rows_view()[i];
                assert(samples.rows_view().contains(row));
                assert(atom_row_in(views, self.spec_self_contribution(), row));
                if atom_pair_row_in_prefix(views, views.len() as int, 0, row) {
                    let (s2, k2) = choose|s2: int, k2: int|
                        0 <= s2 < views.len() && 0 <= k2 < views[s2].pairs.len() && (s2
                            < views.len() as int || (s2 == views.len() as int && k2 < 0)) && (row
                            == seq![
                            s2 as i32,
                            views[s2].pairs[k2].first as i32,
                            crate::neighbor_list::pair_species_first(views[s2], k2),
                            crate::neighbor_list::pair_species_second(views[s2], k2),
                        ] || row == seq![
                            s2 as i32,
                            views[s2].pairs[k2].second as i32,
                            crate::neighbor_list::pair_species_second(views[s2], k2),
                            crate::neighbor_list::pair_species_first(views[s2], k2),
                        ]);
                    assert(crate::system::views_wf(views));
                    assert(views[s2].wf());
                    assert(views[s2].bounded());
                    assert(views[s2] == crate::system::views_of(
                        systems@,
                        self.spec_cutoff(),
                    )[s2]);
                } else {
                    let (s2, c2) = choose|s2: int, c2: int|
                        0 <= s2 < views.len() && 0 <= c2 < views[s2].species.len() && (s2
                            < views.len() as int || (s2 == views.len() as int && c2 < 0)) && row
                            == seq![
                            s2 as i32,
                            c2 as i32,
                            views[s2].species[c2],
                            views[s2].species[c2],
                        ];
                    assert(views[s2].bounded());
                    assert(views[s2] == crate::system::views_of(
                        systems@,
                        self.spec_cutoff(),
                    )[s2]);
                }
            }
        }
        let gradients = match self.gradients_for(systems, &samples) {
            Ok(g) => g,
            Err(e) => {
                return Err(e);
            },
        };
        Ok((samples, Some(gradients)))
    }
}

} // verus!

verus! {

/// The endpoint of a pair that is not the center.
pub open spec fn other_end(p: crate::system::Pair, center: usize) -> usize {
    if p.first == center {
        p.second
    } else {
        p.first
    }
}

/// The triplets around a center from one first pair and the first `jupto`
/// second pairs.
pub open spec fn tri_inner(
    pc: Seq<crate::system::Pair>,
    center: usize,
    i: int,
    jupto: int,
) -> Seq<(usize, usize)>
    decreases jupto,
{
    if jupto <= 0 {
        Seq::empty()
    } else {
        tri_inner(pc, center, i, jupto - 1).push(
            (other_end(pc[i], center), other_end(pc[jupto - 1], center)),
        )
    }
}

/// The triplets around a center from the first `iupto` first pairs.
pub open spec fn tri_outer(pc: Seq<crate::system::Pair>, center: usize, iupto: int) -> Seq<
    (usize, usize),
>
    decreases iupto,
{
    if iupto <= 0 {
        Seq::empty()
    } else {
        tri_outer(pc, center, iupto - 1) + tri_inner(pc, center, iupto - 1, pc.len() as int)
    }
}

/// All triplets `i`–center–`j`: the Cartesian product of the pairs around
/// the center, taking the far end of each.
pub open spec fn spec_triplets(pc: Seq<crate::system::Pair>, center: usize) -> Seq<(usize, usize)> {
    tri_outer(pc, center, pc.len() as int)
}

/// Both atoms of every triplet point into a system of `n` atoms.
pub proof fn lemma_triplets_wf(pc: Seq<crate::system::Pair>, center: usize, n: nat, iupto: int)
    requires
        forall|t: int| 0 <= t < pc.len() ==> (#[trigger] pc[t]).first < n && pc[t].second < n,
        0 <= iupto <= pc.len(),
    ensures
        forall|t: int|
            0 <= t < tri_outer(pc, center, iupto).len()
                ==> (#[trigger] tri_outer(pc, center, iupto)[t]).0 < n && tri_outer(
                pc,
                center,
                iupto,
            )[t].1 < n,
    decreases iupto,
{
    if iupto > 0 {
        lemma_triplets_wf(pc, center, n, iupto - 1);
        let prefix = tri_outer(pc, center, iupto - 1);
        let whole = tri_outer(pc, center, iupto);
        assert forall|j: int|
            0 <= j < tri_inner(pc, center, iupto - 1, pc.len() as int).len() implies (
        #[trigger] tri_inner(pc, center, iupto - 1, pc.len() as int)[j]).0 < n && tri_inner(
            pc,
            center,
            iupto - 1,
            pc.len() as int,
        )[j].1 < n by {
            lemma_tri_inner_wf(pc, center, n, iupto - 1, pc.len() as int, j);
        }
        assert forall|t: int| 0 <= t < whole.len() implies (#[trigger] whole[t]).0 < n
            && whole[t].1 < n by {
            if t < prefix.len() {
                assert(whole[t] == prefix[t]);
            } else {
                assert(whole[t] == tri_inner(pc, center, iupto - 1, pc.len() as int)[t
                    - prefix.len()]);
            }
        }
    }
}

/// Both atoms of an inner triplet point into the system.
pub proof fn lemma_tri_inner_wf(
    pc: Seq<crate::system::Pair>,
    center: usize,
    n: nat,
    i: int,
    jupto: int,
    j: int,
)
    requires
        forall|t: int| 0 <= t < pc.len() ==> (#[trigger] pc[t]).first < n && pc[t].second < n,
        0 <= i < pc.len(),
        0 <= jupto <= pc.len(),
        0 <= j < tri_inner(pc, center, i, jupto).len(),
    ensures
        tri_inner(pc, center, i, jupto)[j].0 < n,
        tri_inner(pc, center, i, jupto)[j].1 < n,
    decreases jupto,
{
    if jupto > 0 {
        let prefix = tri_inner(pc, center, i, jupto - 1);
        if j < prefix.len() {
            lemma_tri_inner_wf(pc, center, n, i, jupto - 1, j);
            assert(tri_inner(pc, center, i, jupto)[j] == prefix[j]);
        } else {
            assert(tri_inner(pc, center, i, jupto)[j] == (
                other_end(pc[i], center),
                other_end(pc[jupto - 1], center),
            ));
        }
    }
}

/// Build the list of triplets `i`–center–`j` around a center: every ordered
/// combination of two pairs touching the center, as the far ends of the two
/// pairs.
pub fn triplets_around(data: &SystemData, center: usize) -> (r: Vec<(usize, usize)>)
    ensures
        r@ == spec_triplets(crate::system::spec_pairs_containing(data.pairs@, center), center),
{
    let pc = data.pairs_containing(center);
    let ghost pcv = pc@;
    let n = pc.len();
    let mut out: Vec<(usize, usize)> = Vec::new();
    let mut i: usize = 0;
    proof {
        assert(out@ =~= tri_outer(pcv, center, 0));
    }
    while i < n
        invariant
            n == pcv.len(),
            i <= n,
            pcv == pc@,
            out@ == tri_outer(pcv, center, i as int),
        decreases n - i,
    {
        let first = pc[i];
        let fother = if first.first == center {
            first.second
        } else {
            first.first
        };
        proof {
            assert(fother == other_end(pcv[i as int], center));
            assert(tri_inner(pcv, center, i as int, 0) =~= Seq::<(usize, usize)>::empty());
            assert(out@ + Seq::<(usize, usize)>::empty() =~= out@);
        }
        let mut j: usize = 0;
        while j < n
            invariant
                n == pcv.len(),
                i < n,
                j <= n,
                pcv == pc@,
                fother == other_end(pcv[i as int], center),
                out@ == tri_outer(pcv, center, i as int) + tri_inner(pcv, center, i as int, j as int),
            decreases n - j,
        {
            let second = pc[j];
            let sother = if second.first == center {
                second.second
            } else {
                second.first
            };
            proof {
                assert(sother == other_end(pcv[j as int], center));
            }
            out.push((fother, sother));
            j += 1;
        }
        i += 1;
    }
    out
}

/// The three-body sample row of triplet `t` around center `c` of system `s`.
pub open spec fn tb_triplet_row(v: SysView, s: int, c: int, t: int) -> Seq<i32> {
    let pc = crate::system::spec_pairs_containing(v.pairs, c as usize);
    let tri = spec_triplets(pc, c as usize);
    let sp = crate::neighbor_list::spec_sort_pair(
        v.species[tri[t].0 as int],
        v.species[tri[t].1 as int],
    ).0;
    seq![s as i32, c as i32, v.species[c], sp.0, sp.1]
}

/// The self-contribution row of center `c` of system `s`.
pub open spec fn tb_self_row(v: SysView, s: int, c: int) -> Seq<i32> {
    seq![s as i32, c as i32, v.species[c], v.species[c], v.species[c]]
}

/// The one-neighbor self-contribution row of center `c` and the pair at
/// `q` around it.
pub open spec fn tb_pair_row(v: SysView, s: int, c: int, q: int) -> Seq<i32> {
    let pc = crate::system::spec_pairs_containing(v.pairs, c as usize);
    let neighbor = other_end(pc[q], c as usize);
    let sp = crate::neighbor_list::spec_sort_pair(v.species[c], v.species[neighbor as int]).0;
    seq![s as i32, c as i32, v.species[c], sp.0, sp.1]
}

/// `row` is a triplet sample, looking only at systems before `s` and
/// centers before `c` inside system `s`.
pub open spec fn tb_row_in_prefix(views: Seq<SysView>, s: int, c: int, row: Seq<i32>) -> bool {
    exists|s2: int, c2: int, t: int|
        0 <= s2 < views.len() && 0 <= c2 < views[s2].species.len() && (s2 < s || (s2 == s && c2 < c))
            && 0 <= t < spec_triplets(
            crate::system::spec_pairs_containing(views[s2].pairs, c2 as usize),
            c2 as usize,
        ).len() && row == tb_triplet_row(views[s2], s2, c2, t)
}

/// The self contributions of one center: its all-self row, or a
/// one-neighbor row of a pair around it.
pub open spec fn tb_self_center_has(v: SysView, s: int, c: int, row: Seq<i32>) -> bool {
    ||| row == tb_self_row(v, s, c)
    ||| exists|q: int|
        0 <= q < crate::system::spec_pairs_containing(v.pairs, c as usize).len() && row
            == tb_pair_row(v, s, c, q)
}

/// `row` is a self-contribution sample, looking only at systems before `s`
/// and centers before `c` inside system `s`: the all-self row of a center,
/// or a one-neighbor row of a pair around it.
pub open spec fn tb_self_in_prefix(views: Seq<SysView>, s: int, c: int, row: Seq<i32>) -> bool {
    exists|s2: int, c2: int|
        0 <= s2 < views.len() && 0 <= c2 < views[s2].species.len() && (s2 < s || (s2 == s && c2 < c))
            && tb_self_center_has(views[s2], s2, c2, row)
}

/// `row` is a three-body sample of the batch.
pub open spec fn tb_row_in(views: Seq<SysView>, self_contribution: bool, row: Seq<i32>) -> bool {
    ||| tb_row_in_prefix(views, views.len() as int, 0, row)
    ||| (self_contribution && tb_self_in_prefix(views, views.len() as int, 0, row))
}

} // verus!

verus! {

/// Collect the three-body sample rows of a batch in sorted order.
fn tb_rows_from_data(data: &Vec<SystemData>, self_contribution: bool) -> (r: SortedVecSet)
    requires
        crate::neighbor_list::data_wf(data@),
        crate::system::views_bounded(crate::system::data_views(data@)),
    ensures
        r.wf(),
        forall|row: Seq<i32>| #[trigger] r.rows_view().contains(row) ==> row.len() == 5,
        forall|row: Seq<i32>|
            #[trigger] r.rows_view().contains(row) <==> tb_row_in(
                crate::system::data_views(data@),
                self_contribution,
                row,
            ),
{
    let ghost views = crate::system::data_views(data@);
    proof {
        assert(views.len() == data@.len());
        assert(forall|s: int| 0 <= s < data@.len() ==> (#[trigger] views[s]) == data@[s].as_view());
    }
    let mut set = SortedVecSet::new();
    let ns = data.len();
    let mut s: usize = 0;
    while s < ns
        invariant
            ns == data@.len(),
            s <= ns,
            crate::neighbor_list::data_wf(data@),
            crate::system::views_bounded(views),
            views == crate::system::data_views(data@),
            views.len() == data@.len(),
            forall|s2: int|
                0 <= s2 < data@.len() ==> (#[trigger] views[s2]) == data@[s2].as_view(),
            set.wf(),
            forall|row: Seq<i32>| #[trigger] set.rows_view().contains(row) ==> row.len() == 5,
            forall|row: Seq<i32>|
                #[trigger] set.rows_view().contains(row) <==> tb_row_in_prefix(
                    views,
                    s as int,
                    0,
                    row,
                ),
        decreases ns - s,
    {
        let nc = data[s].species.len();
        let mut c: usize = 0;
        while c < nc
            invariant
                ns == data@.len(),
                s < ns,
                nc == data@[s as int].species@.len(),
                c <= nc,
                crate::neighbor_list::data_wf(data@),
                crate::system::views_bounded(views),
                views == crate::system::data_views(data@),
                views.len() == data@.len(),
                forall|s2: int|
                    0 <= s2 < data@.len() ==> (#[trigger] views[s2]) == data@[s2].as_view(),
                set.wf(),
                forall|row: Seq<i32>| #[trigger] set.rows_view().contains(row) ==> row.len() == 5,
                forall|row: Seq<i32>|
                    #[trigger] set.rows_view().contains(row) <==> tb_row_in_prefix(
                        views,
                        s as int,
                        c as int,
                        row,
                    ),
            decreases nc - c,
        {
            let ghost v = views[s as int];
            proof {
                assert(v == data@[s as int].as_view());
                assert(v.bounded());
                assert(data@[s as int].wf());
            }
            let tri = triplets_around(&data[s], c);
            let ghost pcv = crate::system::spec_pairs_containing(v.pairs, c as usize);
            proof {
                assert(tri@ == spec_triplets(pcv, c as usize));
                crate::system::lemma_pairs_containing_wf(v.pairs, c as usize, v.species.len());
                lemma_triplets_wf(pcv, c as usize, v.species.len(), pcv.len() as int);
            }
            let spc = data[s].species[c];
            proof {
                assert(spc == v.species[c as int]);
            }
            let nt = tri.len();
            let mut t: usize = 0;
            while t < nt
                invariant
                    ns == data@.len(),
                    s < ns,
                    c < nc,
                    nc == data@[s as int].species@.len(),
                    nt == tri@.len(),
                    t <= nt,
                    crate::neighbor_list::data_wf(data@),
                    crate::system::views_bounded(views),
                    views == crate::system::data_views(data@),
                    views.len() == data@.len(),
                    forall|s2: int|
                        0 <= s2 < data@.len() ==> (#[trigger] views[s2]) == data@[s2].as_view(),
                    v == views[s as int],
                    v == data@[s as int].as_view(),
                    v.bounded(),
                    spc == v.species[c as int],
                    pcv == crate::system::spec_pairs_containing(v.pairs, c as usize),
                    tri@ == spec_triplets(pcv, c as usize),
                    forall|t2: int|
                        0 <= t2 < tri@.len() ==> (#[trigger] tri@[t2]).0 < v.species.len()
                            && tri@[t2].1 < v.species.len(),
                    set.wf(),
                    forall|row: Seq<i32>| #[trigger] set.rows_view().contains(row) ==> row.len() == 5,
                    forall|row: Seq<i32>|
                        #[trigger] set.rows_view().contains(row) <==> (tb_row_in_prefix(
                            views,
                            s as int,
                            c as int,
                            row,
                        ) || exists|t2: int|
                            0 <= t2 < t && row == tb_triplet_row(v, s as int, c as int, t2)),
                decreases nt - t,
            {
                let (oi, oj) = tri[t];
                let spi = data[s].species[oi];
                let spj = data[s].species[oj];
                let ((s1, s2), _inv) = crate::neighbor_list::sort_pair((spi, spj));
                let mut rowv: Vec<i32> = Vec::new();
                rowv.push(s as i32);
                rowv.push(c as i32);
                rowv.push(spc);
                rowv.push(s1);
                rowv.push(s2);
                let ghost newrow = rowv@;
                proof {
                    assert(spi == v.species[tri@[t as int].0 as int]);
                    assert(spj == v.species[tri@[t as int].1 as int]);
                    assert(newrow =~= tb_triplet_row(v, s as int, c as int, t as int));
                }
                set.insert(rowv);
                proof {
                    assert forall|row: Seq<i32>| #[trigger] set.rows_view().contains(row) implies (
                    tb_row_in_prefix(views, s as int, c as int, row) || exists|t2: int|
                        0 <= t2 < t + 1 && row == tb_triplet_row(v, s as int, c as int, t2)) by {
                        if row == newrow {
                            assert(row == tb_triplet_row(v, s as int, c as int, t as int));
                        } else if !tb_row_in_prefix(views, s as int, c as int, row) {
                            let t2 = choose|t2: int|
                                0 <= t2 < t && row == tb_triplet_row(v, s as int, c as int, t2);
                            assert(0 <= t2 < t + 1 && row == tb_triplet_row(
                                v,
                                s as int,
                                c as int,
                                t2,
                            ));
                        }
                    }
                    assert forall|row: Seq<i32>|
                        (tb_row_in_prefix(views, s as int, c as int, row) || exists|t2: int|
                            0 <= t2 < t + 1 && row == tb_triplet_row(v, s as int, c as int, t2))
                        implies #[trigger] set.rows_view().contains(row) by {
                        if !tb_row_in_prefix(views, s as int, c as int, row) {
                            let t2 = choose|t2: int|
                                0 <= t2 < t + 1 && row == tb_triplet_row(v, s as int, c as int, t2);
                            if t2 == t {
                                assert(row == newrow);
                            } else {
                                assert(exists|t3: int|
                                    0 <= t3 < t && row == tb_triplet_row(
                                        v,
                                        s as int,
                                        c as int,
                                        t3,
                                    ));
                            }
                        }
                    }
                }
                t += 1;
            }
            proof {
                assert forall|row: Seq<i32>|
                    (tb_row_in_prefix(views, s as int, c as int, row) || exists|t2: int|
                        0 <= t2 < nt && row == tb_triplet_row(v, s as int, c as int, t2))
                        == tb_row_in_prefix(views, s as int, c + 1, row) by {
                    if tb_row_in_prefix(views, s as int, c as int, row) {
                        let (s2, c2, t2) = choose|s2: int, c2: int, t2: int|
                            0 <= s2 < views.len() && 0 <= c2 < views[s2].species.len() && (s2 < s
                                || (s2 == s && c2 < c)) && 0 <= t2 < spec_triplets(
                                crate::system::spec_pairs_containing(views[s2].pairs, c2 as usize),
                                c2 as usize,
                            ).len() && row == tb_triplet_row(views[s2], s2, c2, t2);
                        assert(s2 < s || (s2 == s && c2 < c + 1));
                        assert(tb_row_in_prefix(views, s as int, c + 1, row));
                    }
                    if exists|t2: int|
                        0 <= t2 < nt && row == tb_triplet_row(v, s as int, c as int, t2) {
                        let t2 = choose|t2: int|
                            0 <= t2 < nt && row == tb_triplet_row(v, s as int, c as int, t2);
                        assert(0 <= (c as int) < views[s as int].species.len());
                        assert(tb_row_in_prefix(views, s as int, c + 1, row));
                    }
                    if tb_row_in_prefix(views, s as int, c + 1, row) {
                        let (s2, c2, t2) = choose|s2: int, c2: int, t2: int|
                            0 <= s2 < views.len() && 0 <= c2 < views[s2].species.len() && (s2 < s
                                || (s2 == s && c2 < c + 1)) && 0 <= t2 < spec_triplets(
                                crate::system::spec_pairs_containing(views[s2].pairs, c2 as usize),
                                c2 as usize,
                            ).len() && row == tb_triplet_row(views[s2], s2, c2, t2);
                        if s2 == s && c2 == c {
                            assert(exists|t3: int|
                                0 <= t3 < nt && row == tb_triplet_row(v, s as int, c as int, t3));
                        } else {
                            assert(tb_row_in_prefix(views, s as int, c as int, row));
                        }
                    }
                }
            }
            c += 1;
        }
        proof {
            assert forall|row: Seq<i32>|
                tb_row_in_prefix(views, s as int, nc as int, row) == tb_row_in_prefix(
                    views,
                    s + 1,
                    0,
                    row,
                ) by {
                if tb_row_in_prefix(views, s as int, nc as int, row) {
                    let (s2, c2, t2) = choose|s2: int, c2: int, t2: int|
                        0 <= s2 < views.len() && 0 <= c2 < views[s2].species.len() && (s2 < s || (s2
                            == s && c2 < nc)) && 0 <= t2 < spec_triplets(
                            crate::system::spec_pairs_containing(views[s2].pairs, c2 as usize),
                            c2 as usize,
                        ).len() && row == tb_triplet_row(views[s2], s2, c2, t2);
                    assert(s2 < s + 1);
                    assert(tb_row_in_prefix(views, s + 1, 0, row));
                }
                if tb_row_in_prefix(views, s + 1, 0, row) {
                    let (s2, c2, t2) = choose|s2: int, c2: int, t2: int|
                        0 <= s2 < views.len() && 0 <= c2 < views[s2].species.len() && (s2 < s + 1
                            || (s2 == s + 1 && c2 < 0)) && 0 <= t2 < spec_triplets(
                            crate::system::spec_pairs_containing(views[s2].pairs, c2 as usize),
                            c2 as usize,
                        ).len() && row == tb_triplet_row(views[s2], s2, c2, t2);
                    assert(s2 <= s);
                    if s2 == s {
                        assert(views[s as int] == data@[s as int].as_view());
                        assert(c2 < nc);
                    }
                    assert(tb_row_in_prefix(views, s as int, nc as int, row));
                }
            }
        }
        s += 1;
    }
    if !self_contribution {
        return set;
    }
    let mut s2: usize = 0;
    while s2 < ns
        invariant
            ns == data@.len(),
            s2 <= ns,
            crate::neighbor_list::data_wf(data@),
            crate::system::views_bounded(views),
            views == crate::system::data_views(data@),
            views.len() == data@.len(),
            forall|s3: int|
                0 <= s3 < data@.len() ==> (#[trigger] views[s3]) == data@[s3].as_view(),
            set.wf(),
            forall|row: Seq<i32>| #[trigger] set.rows_view().contains(row) ==> row.len() == 5,
            forall|row: Seq<i32>|
                #[trigger] set.rows_view().contains(row) <==> (tb_row_in_prefix(
                    views,
                    views.len() as int,
                    0,
                    row,
                ) || tb_self_in_prefix(views, s2 as int, 0, row)),
        decreases ns - s2,
    {
        let nc = data[s2].species.len();
        let mut c: usize = 0;
        while c < nc
            invariant
                ns == data@.len(),
                s2 < ns,
                nc == data@[s2 as int].species@.len(),
                c <= nc,
                crate::neighbor_list::data_wf(data@),
                crate::system::views_bounded(views),
                views == crate::system::data_views(data@),
                views.len() == data@.len(),
                forall|s3: int|
                    0 <= s3 < data@.len() ==> (#[trigger] views[s3]) == data@[s3].as_view(),
                set.wf(),
                forall|row: Seq<i32>| #[trigger] set.rows_view().contains(row) ==> row.len() == 5,
                forall|row: Seq<i32>|
                    #[trigger] set.rows_view().contains(row) <==> (tb_row_in_prefix(
                        views,
                        views.len() as int,
                        0,
                        row,
                    ) || tb_self_in_prefix(views, s2 as int, c as int, row)),
            decreases nc - c,
        {
            let ghost v = views[s2 as int];
            proof {
                assert(v == data@[s2 as int].as_view());
                assert(v.bounded());
                assert(data@[s2 as int].wf());
            }
            let spc = data[s2].species[c];
            proof {
                assert(spc == v.species[c as int]);
            }
            let mut selfrow: Vec<i32> = Vec::new();
            selfrow.push(s2 as i32);
            selfrow.push(c as i32);
            selfrow.push(spc);
            selfrow.push(spc);
            selfrow.push(spc);
            let ghost vself = selfrow@;
            proof {
                assert(vself =~= tb_self_row(v, s2 as int, c as int));
            }
            set.insert(selfrow);
            let pc = data[s2].pairs_containing(c);
            let ghost pcv = crate::system::spec_pairs_containing(v.pairs, c as usize);
            proof {
                assert(pc@ == pcv);
                crate::system::lemma_pairs_containing_wf(v.pairs, c as usize, v.species.len());
            }
            let nq = pc.len();
            let mut q: usize = 0;
            proof {
                assert forall|row: Seq<i32>| #[trigger] set.rows_view().contains(row) implies (
                tb_row_in_prefix(views, views.len() as int, 0, row) || tb_self_in_prefix(
                    views,
                    s2 as int,
                    c as int,
                    row,
                ) || row == vself || exists|q2: int| 0 <= q2 < 0 && row == tb_pair_row(
                    v,
                    s2 as int,
                    c as int,
                    q2,
                )) by {}
            }
            while q < nq
                invariant
                    ns == data@.len(),
                    s2 < ns,
                    c < nc,
                    nc == data@[s2 as int].species@.len(),
                    nq == pc@.len(),
                    q <= nq,
                    crate::neighbor_list::data_wf(data@),
                    crate::system::views_bounded(views),
                    views == crate::system::data_views(data@),
                    views.len() == data@.len(),
                    forall|s3: int|
                        0 <= s3 < data@.len() ==> (#[trigger] views[s3]) == data@[s3].as_view(),
                    v == views[s2 as int],
                    v == data@[s2 as int].as_view(),
                    v.bounded(),
                    spc == v.species[c as int],
                    pcv == crate::system::spec_pairs_containing(v.pairs, c as usize),
                    pc@ == pcv,
                    vself == tb_self_row(v, s2 as int, c as int),
                    forall|q2: int|
                        0 <= q2 < pcv.len() ==> (#[trigger] pcv[q2]).first < v.species.len()
                            && pcv[q2].second < v.species.len(),
                    set.wf(),
                    forall|row: Seq<i32>| #[trigger] set.rows_view().contains(row) ==> row.len() == 5,
                    forall|row: Seq<i32>|
                        #[trigger] set.rows_view().contains(row) <==> (tb_row_in_prefix(
                            views,
                            views.len() as int,
                            0,
                            row,
                        ) || tb_self_in_prefix(views, s2 as int, c as int, row) || row == vself
                            || exists|q2: int|
                            0 <= q2 < q && row == tb_pair_row(v, s2 as int, c as int, q2)),
                decreases nq - q,
            {
                let p = pc[q];
                let neighbor = if p.first == c {
                    p.second
                } else {
                    p.first
                };
                proof {
                    assert(p == pcv[q as int]);
                    assert(neighbor == other_end(pcv[q as int], c as usize));
                    assert(neighbor < v.species.len());
                }
                let spn = data[s2].species[neighbor];
                let ((t1, t2), _inv) = crate::neighbor_list::sort_pair((spc, spn));
                let mut rowv: Vec<i32> = Vec::new();
                rowv.push(s2 as i32);
                rowv.push(c as i32);
                rowv.push(spc);
                rowv.push(t1);
                rowv.push(t2);
                let ghost newrow = rowv@;
                proof {
                    assert(spn == v.species[neighbor as int]);
                    assert(newrow =~= tb_pair_row(v, s2 as int, c as int, q as int));
                }
                set.insert(rowv);
                proof {
                    assert forall|row: Seq<i32>| #[trigger] set.rows_view().contains(row) implies (
                    tb_row_in_prefix(views, views.len() as int, 0, row) || tb_self_in_prefix(
                        views,
                        s2 as int,
                        c as int,
                        row,
                    ) || row == vself || exists|q2: int|
                        0 <= q2 < q + 1 && row == tb_pair_row(v, s2 as int, c as int, q2)) by {
                        if row == newrow {
                            assert(0 <= (q as int) < q + 1 && row == tb_pair_row(
                                v,
                                s2 as int,
                                c as int,
                                q as int,
                            ));
                        } else if !(tb_row_in_prefix(views, views.len() as int, 0, row)
                            || tb_self_in_prefix(views, s2 as int, c as int, row) || row == vself) {
                            let q2 = choose|q2: int|
                                0 <= q2 < q && row == tb_pair_row(v, s2 as int, c as int, q2);
                            assert(0 <= q2 < q + 1 && row == tb_pair_row(
                                v,
                                s2 as int,
                                c as int,
                                q2,
                            ));
                        }
                    }
                    assert forall|row: Seq<i32>|
                        (tb_row_in_prefix(views, views.len() as int, 0, row) || tb_self_in_prefix(
                            views,
                            s2 as int,
                            c as int,
                            row,
                        ) || row == vself || exists|q2: int|
                            0 <= q2 < q + 1 && row == tb_pair_row(v, s2 as int, c as int, q2))
                        implies #[trigger] set.rows_view().contains(row) by {
                        if !(tb_row_in_prefix(views, views.len() as int, 0, row)
                            || tb_self_in_prefix(views, s2 as int, c as int, row) || row == vself) {
                            let q2 = choose|q2: int|
                                0 <= q2 < q + 1 && row == tb_pair_row(v, s2 as int, c as int, q2);
                            if q2 == q {
                                assert(row == newrow);
                            } else {
                                assert(exists|q3: int|
                                    0 <= q3 < q && row == tb_pair_row(v, s2 as int, c as int, q3));
                            }
                        }
                    }
                }
                q += 1;
            }
            proof {
                assert forall|row: Seq<i32>|
                    (tb_self_in_prefix(views, s2 as int, c as int, row) || row == vself || exists|
                        q2: int,
                    |
                        0 <= q2 < nq && row == tb_pair_row(v, s2 as int, c as int, q2))
                        == tb_self_in_prefix(views, s2 as int, c + 1, row) by {
                    if tb_self_in_prefix(views, s2 as int, c as int, row) {
                        let (s3, c3) = choose|s3: int, c3: int|
                            0 <= s3 < views.len() && 0 <= c3 < views[s3].species.len() && (s3 < s2
                                || (s3 == s2 && c3 < c)) && tb_self_center_has(
                                views[s3],
                                s3,
                                c3,
                                row,
                            );
                        assert(s3 < s2 || (s3 == s2 && c3 < c + 1));
                        assert(tb_self_in_prefix(views, s2 as int, c + 1, row));
                    }
                    if row == vself || (exists|q2: int|
                        0 <= q2 < nq && row == tb_pair_row(v, s2 as int, c as int, q2)) {
                        assert(0 <= (c as int) < views[s2 as int].species.len());
                        assert(tb_self_center_has(views[s2 as int], s2 as int, c as int, row));
                        assert(tb_self_in_prefix(views, s2 as int, c + 1, row));
                    }
                    if tb_self_in_prefix(views, s2 as int, c + 1, row) {
                        let (s3, c3) = choose|s3: int, c3: int|
                            0 <= s3 < views.len() && 0 <= c3 < views[s3].species.len() && (s3 < s2
                                || (s3 == s2 && c3 < c + 1)) && tb_self_center_has(
                                views[s3],
                                s3,
                                c3,
                                row,
                            );
                        if s3 == s2 && c3 == c {
                            assert(row == vself || (exists|q3: int|
                                0 <= q3 < nq && row == tb_pair_row(v, s2 as int, c as int, q3)));
                        } else {
                            assert(tb_self_in_prefix(views, s2 as int, c as int, row));
                        }
                    }
                }
            }
            c += 1;
        }
        proof {
            assert forall|row: Seq<i32>|
                tb_self_in_prefix(views, s2 as int, nc as int, row) == tb_self_in_prefix(
                    views,
                    s2 + 1,
                    0,
                    row,
                ) by {
                if tb_self_in_prefix(views, s2 as int, nc as int, row) {
                    let (s3, c3) = choose|s3: int, c3: int|
                        0 <= s3 < views.len() && 0 <= c3 < views[s3].species.len() && (s3 < s2 || (
                        s3 == s2 && c3 < nc)) && tb_self_center_has(views[s3], s3, c3, row);
                    assert(s3 < s2 + 1);
                    assert(tb_self_in_prefix(views, s2 + 1, 0, row));
                }
                if tb_self_in_prefix(views, s2 + 1, 0, row) {
                    let (s3, c3) = choose|s3: int, c3: int|
                        0 <= s3 < views.len() && 0 <= c3 < views[s3].species.len() && (s3 < s2 + 1
                            || (s3 == s2 + 1 && c3 < 0)) && tb_self_center_has(
                            views[s3],
                            s3,
                            c3,
                            row,
                        );
                    assert(s3 <= s2);
                    if s3 == s2 {
                        assert(views[s2 as int] == data@[s2 as int].as_view());
                        assert(c3 < nc);
                    }
                    assert(tb_self_in_prefix(views, s2 as int, nc as int, row));
                }
            }
        }
        s2 += 1;
    }
    set
}

} // verus!

verus! {

/// Gradient rows one requested three-body sample owes from the first
/// `upto` triplets around its center: one row per endpoint of every
/// triplet, repeats not yet dropped.
pub open spec fn tb_gradient_tri_rows(
    v: SysView,
    rrow: Seq<i32>,
    tri: Seq<(usize, usize)>,
    upto: int,
) -> Seq<Seq<i32>>
    decreases upto,
{
    if upto <= 0 {
        Seq::empty()
    } else {
        let prefix = tb_gradient_tri_rows(v, rrow, tri, upto - 1);
        let sp = crate::neighbor_list::spec_sort_pair(
            v.species[tri[upto - 1].0 as int],
            v.species[tri[upto - 1].1 as int],
        ).0;
        prefix + seq![
            seq![
                rrow[0],
                rrow[1],
                v.species[rrow[1] as int],
                sp.0,
                sp.1,
                tri[upto - 1].0 as i32,
            ],
            seq![
                rrow[0],
                rrow[1],
                v.species[rrow[1] as int],
                sp.0,
                sp.1,
                tri[upto - 1].1 as i32,
            ],
        ]
    }
}

/// Gradient rows generated by the first `upto` requested three-body
/// samples, in request order, repeats not yet dropped.
pub open spec fn tb_gradient_gen(views: Seq<SysView>, srows: Seq<Seq<i32>>, upto: int) -> Seq<
    Seq<i32>,
>
    decreases upto,
{
    if upto <= 0 {
        Seq::empty()
    } else {
        let v = views[srows[upto - 1][0] as int];
        let pc = crate::system::spec_pairs_containing(v.pairs, srows[upto - 1][1] as usize);
        let tri = spec_triplets(pc, srows[upto - 1][1] as usize);
        tb_gradient_gen(views, srows, upto - 1) + tb_gradient_tri_rows(
            v,
            srows[upto - 1],
            tri,
            tri.len() as int,
        )
    }
}

/// Every generated three-body gradient row has six entries.
pub proof fn lemma_tb_gradient_tri_rows_shape(
    v: SysView,
    rrow: Seq<i32>,
    tri: Seq<(usize, usize)>,
    upto: int,
)
    requires
        0 <= upto <= tri.len(),
    ensures
        forall|i: int|
            0 <= i < tb_gradient_tri_rows(v, rrow, tri, upto).len()
                ==> (#[trigger] tb_gradient_tri_rows(v, rrow, tri, upto)[i]).len() == 6,
    decreases upto,
{
    if upto > 0 {
        lemma_tb_gradient_tri_rows_shape(v, rrow, tri, upto - 1);
        let prefix = tb_gradient_tri_rows(v, rrow, tri, upto - 1);
        let whole = tb_gradient_tri_rows(v, rrow, tri, upto);
        assert forall|i: int| 0 <= i < whole.len() implies (#[trigger] whole[i]).len() == 6 by {
            if i < prefix.len() {
                assert(whole[i] == prefix[i]);
            }
        }
    }
}

/// Every generated three-body gradient row has six entries.
pub proof fn lemma_tb_gradient_gen_shape(views: Seq<SysView>, srows: Seq<Seq<i32>>, upto: int)
    requires
        0 <= upto <= srows.len(),
        forall|i: int|
            0 <= i < srows.len() ==> 0 <= (#[trigger] srows[i])[0] && (srows[i][0] as int)
                < views.len(),
    ensures
        forall|i: int|
            0 <= i < tb_gradient_gen(views, srows, upto).len()
                ==> (#[trigger] tb_gradient_gen(views, srows, upto)[i]).len() == 6,
    decreases upto,
{
    if upto > 0 {
        lemma_tb_gradient_gen_shape(views, srows, upto - 1);
        let v = views[srows[upto - 1][0] as int];
        let pc = crate::system::spec_pairs_containing(v.pairs, srows[upto - 1][1] as usize);
        let tri = spec_triplets(pc, srows[upto - 1][1] as usize);
        lemma_tb_gradient_tri_rows_shape(v, srows[upto - 1], tri, tri.len() as int);
        let prefix = tb_gradient_gen(views, srows, upto - 1);
        let seg = tb_gradient_tri_rows(v, srows[upto - 1], tri, tri.len() as int);
        let whole = tb_gradient_gen(views, srows, upto);
        assert forall|i: int| 0 <= i < whole.len() implies (#[trigger] whole[i]).len() == 6 by {
            if i < prefix.len() {
                assert(whole[i] == prefix[i]);
            } else {
                assert(whole[i] == seg[i - prefix.len()]);
            }
        }
    }
}

/// `ThreeBodiesSpeciesSamples` represents three-body atom-centered
/// environments: a central atom and the species of two neighbors inside a
/// spherical cutoff.
pub struct ThreeBodiesSpeciesSamples {
    /// Spherical cutoff of the environments, as a binary64 bit pattern.
    cutoff: u64,
    /// Is the central atom considered to be its own neighbor?
    self_contribution: bool,
}

impl ThreeBodiesSpeciesSamples {
    /// The cutoff this builder was created with.
    pub closed spec fn spec_cutoff(&self) -> u64 {
        self.cutoff
    }

    /// Does this builder add self contributions?
    pub closed spec fn spec_self_contribution(&self) -> bool {
        self.self_contribution
    }

    /// A new builder with the given cutoff, excluding self contributions.
    pub fn new(cutoff: u64) -> (r: ThreeBodiesSpeciesSamples)
        requires
            crate::bits::cutoff_is_valid(cutoff),
        ensures
            r.spec_cutoff() == cutoff,
            !r.spec_self_contribution(),
    {
        ThreeBodiesSpeciesSamples { cutoff, self_contribution: false }
    }

    /// A new builder with the given cutoff, including self contributions.
    pub fn with_self_contribution(cutoff: u64) -> (r: ThreeBodiesSpeciesSamples)
        requires
            crate::bits::cutoff_is_valid(cutoff),
        ensures
            r.spec_cutoff() == cutoff,
            r.spec_self_contribution(),
    {
        ThreeBodiesSpeciesSamples { cutoff, self_contribution: true }
    }

    /// Names of the sample columns.
    pub fn names(&self) -> (r: Vec<String>)
        ensures
            r@.map_values(|s: String| s@) == seq![
                "structure"@,
                "center"@,
                "species_center"@,
                "species_neighbor_1"@,
                "species_neighbor_2"@,
            ],
    {
        let mut v: Vec<String> = Vec::new();
        v.push("structure".to_owned());
        v.push("center".to_owned());
        v.push("species_center".to_owned());
        v.push("species_neighbor_1".to_owned());
        v.push("species_neighbor_2".to_owned());
        proof {
            assert(v@.map_values(|s: String| s@) =~= seq![
                "structure"@,
                "center"@,
                "species_center"@,
                "species_neighbor_1"@,
                "species_neighbor_2"@,
            ]);
        }
        v
    }

    /// The three-body sample rows of a batch, sorted ascending: one row per
    /// triplet with the two neighbor species in ascending order, and, with
    /// self contributions, the rows pairing each center with itself.
    pub fn indexes<S: System>(&self, systems: &mut Vec<S>) -> (r: Result<Labels, crate::Error>)
        requires
            crate::bits::cutoff_is_valid(self.spec_cutoff()),
            crate::system::views_bounded(
                crate::system::views_of(systems@, self.spec_cutoff()),
            ),
        ensures
            crate::system::systems_preserved(old(systems)@, final(systems)@),
            r matches Ok(labels) ==> labels.wf() && labels.names_view() == seq![
                "structure"@,
                "center"@,
                "species_center"@,
                "species_neighbor_1"@,
                "species_neighbor_2"@,
            ] && labels.spec_width() == 5 && sorted_strict(labels.rows_view()) && forall|
                row: Seq<i32>,
            |
                #[trigger] labels.rows_view().contains(row) <==> tb_row_in(
                    crate::system::views_of(old(systems)@, self.spec_cutoff()),
                    self.spec_self_contribution(),
                    row,
                ),
            r is Ok ==> crate::system::views_wf(
                crate::system::views_of(old(systems)@, self.spec_cutoff()),
            ),
            r matches Err(e) ==> (e matches crate::Error::NeighborList(_)),
    {
        let data = match crate::system::gather(systems, self.cutoff) {
            Ok(d) => d,
            Err(e) => {
                return Err(e);
            },
        };
        proof {
            crate::system::lemma_views_wf_of_data(data@);
        }
        let set = tb_rows_from_data(&data, self.self_contribution);
        let names = self.names();
        let ghost setview = set.rows_view();
        proof {
            assert(names@.len() == 5) by {
                assert(names@.map_values(|s: String| s@).len() == names@.len());
            }
            assert forall|i: int| 0 <= i < setview.len() implies (#[trigger] setview[i]).len()
                == 5 by {
                assert(set.rows_view().contains(setview[i]));
            }
        }
        let rows = set.into_rows();
        proof {
            let rview = rows@.map_values(|v: Vec<i32>| v@);
            assert(rview == setview);
            crate::labels::lemma_sorted_strict_unique(rview);
            assert forall|i: int| 0 <= i < rows@.len() implies (#[trigger] rows@[i])@.len()
                == names@.len() by {
                assert(rview[i] == rows@[i]@);
            }
            assert forall|i: int, j: int| 0 <= i < j < rows@.len() implies rows@[i]@
                != rows@[j]@ by {
                assert(rview[i] == rows@[i]@ && rview[j] == rows@[j]@);
            }
        }
        Ok(Labels::from_parts(names, rows))
    }

    /// Gradient rows for the given samples, in the caller's sample order:
    /// for each requested center, three spatial rows per endpoint of every
    /// triplet around it, repeats dropped while keeping first-appearance
    /// order.
    pub fn gradients_for<S: System>(&self, systems: &mut Vec<S>, samples: &Labels) -> (r: Result<
        Labels,
        crate::Error,
    >)
        requires
            crate::bits::cutoff_is_valid(self.spec_cutoff()),
            crate::system::views_bounded(
                crate::system::views_of(systems@, self.spec_cutoff()),
            ),
            samples.wf(),
            samples.names_view() == seq![
                "structure"@,
                "center"@,
                "species_center"@,
                "species_neighbor_1"@,
                "species_neighbor_2"@,
            ],
            samples.spec_width() == 5,
            forall|i: int|
                0 <= i < samples.rows_view().len() ==> {
                    let row = #[trigger] samples.rows_view()[i];
                    &&& 0 <= row[0]
                    &&& (row[0] as int) < systems@.len()
                    &&& 0 <= row[1]
                    &&& (row[1] as int) < systems@[row[0] as int].spec_species().len()
                },
        ensures
            crate::system::systems_preserved(old(systems)@, final(systems)@),
            r matches Ok(labels) ==> labels.wf() && labels.names_view() == seq![
                "structure"@,
                "center"@,
                "species_center"@,
                "species_neighbor_1"@,
                "species_neighbor_2"@,
                "neighbor"@,
                "spatial"@,
            ] && labels.spec_width() == 7 && labels.rows_view() == expand3(
                dedup_rows(
                    tb_gradient_gen(
                        crate::system::views_of(old(systems)@, self.spec_cutoff()),
                        samples.rows_view(),
                        samples.rows_view().len() as int,
                    ),
                ),
            ),
            r matches Err(e) ==> (e matches crate::Error::NeighborList(_)),
    {
        let ghost views = crate::system::views_of(systems@, self.cutoff);
        let ghost srows = samples.rows_view();
        let data = match crate::system::gather(systems, self.cutoff) {
            Ok(d) => d,
            Err(e) => {
                return Err(e);
            },
        };
        proof {
            assert(crate::system::data_views(data@) == views);
            assert(views.len() == data@.len());
            assert(forall|i: int|
                0 <= i < data@.len() ==> (#[trigger] views[i]) == data@[i].as_view());
            assert forall|i: int| 0 <= i < srows.len() implies 0 <= (#[trigger] srows[i])[0] && (
            srows[i][0] as int) < views.len() && 0 <= srows[i][1] && (srows[i][1] as int)
                < views[srows[i][0] as int].species.len() by {
                assert(views[srows[i][0] as int] == crate::system::views_of(
                    old(systems)@,
                    self.spec_cutoff(),
                )[srows[i][0] as int]);
            }
        }
        let mut set = index_set_new();
        let nreq = samples.count();
        let mut m: usize = 0;
        proof {
            assert(index_set_rows(set) =~= dedup_rows(tb_gradient_gen(views, srows, 0)));
        }
        while m < nreq
            invariant
                nreq == srows.len(),
                m <= nreq,
                srows == samples.rows_view(),
                samples.wf(),
                samples.spec_width() == 5,
                views.len() == data@.len(),
                crate::neighbor_list::data_wf(data@),
                crate::system::views_bounded(views),
                forall|i: int|
                    0 <= i < data@.len() ==> (#[trigger] views[i]) == data@[i].as_view(),
                forall|i: int|
                    0 <= i < srows.len() ==> 0 <= (#[trigger] srows[i])[0] && (srows[i][0] as int)
                        < views.len() && 0 <= srows[i][1] && (srows[i][1] as int)
                        < views[srows[i][0] as int].species.len(),
                index_set_rows(set) == dedup_rows(tb_gradient_gen(views, srows, m as int)),
            decreases nreq - m,
        {
            let srow = samples.row(m);
            proof {
                assert(srow@ == srows[m as int]);
                assert(srow@.len() == 5);
            }
            let si = srow[0];
            let center = srow[1] as usize;
            let ghost v = views[srows[m as int][0] as int];
            let tri = triplets_around(&data[si as usize], center);
            let ghost pcv = crate::system::spec_pairs_containing(v.pairs, center);
            let ghost triv = spec_triplets(pcv, center);
            let spc = data[si as usize].species[center];
            proof {
                assert(data@[si as int].as_view() == v);
                assert(data@[si as int].wf());
                assert(v.bounded());
                assert(tri@ == triv);
                assert(spc == v.species[center as int]);
                crate::system::lemma_pairs_containing_wf(v.pairs, center, v.species.len());
                lemma_triplets_wf(pcv, center, v.species.len(), pcv.len() as int);
                assert(tb_gradient_tri_rows(v, srows[m as int], triv, 0)
                    =~= Seq::<Seq<i32>>::empty());
                assert(tb_gradient_gen(views, srows, m as int) + Seq::<Seq<i32>>::empty()
                    =~= tb_gradient_gen(views, srows, m as int));
            }
            let nt = tri.len();
            let mut t: usize = 0;
            while t < nt
                invariant
                    nt == triv.len(),
                    t <= nt,
                    srows == samples.rows_view(),
                    m < srows.len(),
                    srows[m as int].len() == 5,
                    views.len() == data@.len(),
                    0 <= si,
                    (si as int) < data@.len(),
                    data@[si as int].as_view() == v,
                    crate::neighbor_list::data_wf(data@),
                    si == srows[m as int][0],
                    srow@ == srows[m as int],
                    center as int == srows[m as int][1] as int,
                    v == views[srows[m as int][0] as int],
                    v.bounded(),
                    spc == v.species[center as int],
                    (center as int) < v.species.len(),
                    center as i32 == srows[m as int][1],
                    tri@ == triv,
                    triv == spec_triplets(pcv, center),
                    pcv == crate::system::spec_pairs_containing(v.pairs, center),
                    forall|t2: int|
                        0 <= t2 < triv.len() ==> (#[trigger] triv[t2]).0 < v.species.len()
                            && triv[t2].1 < v.species.len(),
                    index_set_rows(set) == dedup_rows(
                        tb_gradient_gen(views, srows, m as int) + tb_gradient_tri_rows(
                            v,
                            srows[m as int],
                            triv,
                            t as int,
                        ),
                    ),
                decreases nt - t,
            {
                let ghost gen_before = tb_gradient_gen(views, srows, m as int)
                    + tb_gradient_tri_rows(v, srows[m as int], triv, t as int);
                let (oi, oj) = tri[t];
                let spi = data[si as usize].species[oi];
                let spj = data[si as usize].species[oj];
                let ((s1, s2), _inv) = crate::neighbor_list::sort_pair((spi, spj));
                let mut row1: Vec<i32> = Vec::new();
                row1.push(si);
                row1.push(center as i32);
                row1.push(spc);
                row1.push(s1);
                row1.push(s2);
                row1.push(oi as i32);
                let mut row2: Vec<i32> = Vec::new();
                row2.push(si);
                row2.push(center as i32);
                row2.push(spc);
                row2.push(s1);
                row2.push(s2);
                row2.push(oj as i32);
                let ghost v1 = row1@;
                let ghost v2 = row2@;
                proof {
                    let rr = srows[m as int];
                    assert(spi == v.species[triv[t as int].0 as int]);
                    assert(spj == v.species[triv[t as int].1 as int]);
                    assert(v.species[rr[1] as int] == spc);
                    assert(v1 =~= seq![
                        rr[0],
                        rr[1],
                        v.species[rr[1] as int],
                        s1,
                        s2,
                        triv[t as int].0 as i32,
                    ]);
                    assert(v2 =~= seq![
                        rr[0],
                        rr[1],
                        v.species[rr[1] as int],
                        s1,
                        s2,
                        triv[t as int].1 as i32,
                    ]);
                    assert(tb_gradient_tri_rows(v, rr, triv, t + 1) == tb_gradient_tri_rows(
                        v,
                        rr,
                        triv,
                        t as int,
                    ) + seq![v1, v2]);
                    assert(gen_before.push(v1).drop_last() =~= gen_before);
                    assert(gen_before.push(v1).push(v2).drop_last() =~= gen_before.push(v1));
                    assert(gen_before.push(v1).push(v2) =~= tb_gradient_gen(views, srows, m as int)
                        + tb_gradient_tri_rows(v, rr, triv, t + 1));
                }
                index_set_insert(&mut set, row1);
                proof {
                    assert(index_set_rows(set) == dedup_rows(gen_before.push(v1)));
                }
                index_set_insert(&mut set, row2);
                proof {
                    assert(index_set_rows(set) == dedup_rows(gen_before.push(v1).push(v2)));
                    assert(gen_before.push(v1).push(v2) == tb_gradient_gen(views, srows, m as int)
                        + tb_gradient_tri_rows(v, srows[m as int], triv, t + 1));
                }
                t += 1;
            }
            proof {
                assert(tb_gradient_gen(views, srows, m + 1) == tb_gradient_gen(
                    views,
                    srows,
                    m as int,
                ) + tb_gradient_tri_rows(
                    v,
                    srows[m as int],
                    spec_triplets(
                        crate::system::spec_pairs_containing(
                            v.pairs,
                            srows[m as int][1] as usize,
                        ),
                        srows[m as int][1] as usize,
                    ),
                    spec_triplets(
                        crate::system::spec_pairs_containing(
                            v.pairs,
                            srows[m as int][1] as usize,
                        ),
                        srows[m as int][1] as usize,
                    ).len() as int,
                ));
                assert(center == srows[m as int][1] as usize);
                assert(triv == spec_triplets(
                    crate::system::spec_pairs_containing(v.pairs, srows[m as int][1] as usize),
                    srows[m as int][1] as usize,
                ));
            }
            m += 1;
        }
        let base_rows = index_set_into_rows(set);
        let expanded = append_spatial(base_rows);
        let mut names: Vec<String> = Vec::new();
        names.push("structure".to_owned());
        names.push("center".to_owned());
        names.push("species_center".to_owned());
        names.push("species_neighbor_1".to_owned());
        names.push("species_neighbor_2".to_owned());
        names.push("neighbor".to_owned());
        names.push("spatial".to_owned());
        proof {
            assert(names@.map_values(|s: String| s@) =~= seq![
                "structure"@,
                "center"@,
                "species_center"@,
                "species_neighbor_1"@,
                "species_neighbor_2"@,
                "neighbor"@,
                "spatial"@,
            ]);
            assert(names@.len() == 7) by {
                assert(names@.map_values(|s: String| s@).len() == names@.len());
            }
            let gen = tb_gradient_gen(views, srows, srows.len() as int);
            let base = dedup_rows(gen);
            lemma_dedup_rows(gen);
            lemma_tb_gradient_gen_shape(views, srows, srows.len() as int);
            assert forall|i: int| 0 <= i < base.len() implies (#[trigger] base[i]).len() == 6 by {
                assert(base.contains(base[i]));
                assert(gen.contains(base[i]));
                let g = choose|g: int| 0 <= g < gen.len() && gen[g] == base[i];
            }
            lemma_expand3_shape(base, 6);
            let eview = expanded@.map_values(|v2: Vec<i32>| v2@);
            assert(eview == expand3(base)) by {
                assert(base_rows@.map_values(|v2: Vec<i32>| v2@) == base);
            }
            assert forall|i: int| 0 <= i < expanded@.len() implies (#[trigger] expanded@[i])@.len()
                == names@.len() by {
                assert(eview[i] == expanded@[i]@);
            }
            assert forall|i: int, j: int| 0 <= i < j < expanded@.len() implies expanded@[i]@
                != expanded@[j]@ by {
                assert(eview[i] == expanded@[i]@ && eview[j] == expanded@[j]@);
            }
        }
        Ok(Labels::from_parts(names, expanded))
    }

    /// The samples of a batch together with their gradient rows.
    pub fn with_gradients<S: System>(&self, systems: &mut Vec<S>) -> (r: Result<
        (Labels, Option<Labels>),
        crate::Error,
    >)
        requires
            crate::bits::cutoff_is_valid(self.spec_cutoff()),
            crate::system::views_bounded(
                crate::system::views_of(systems@, self.spec_cutoff()),
            ),
        ensures
            crate::system::systems_preserved(old(systems)@, final(systems)@),
            r matches Err(e) ==> (e matches crate::Error::NeighborList(_)),
    {
        let ghost views = crate::system::views_of(systems@, self.cutoff);
        let samples = match self.indexes(systems) {
            Ok(s) => s,
            Err(e) => {
                return Err(e);
            },
        };
        proof {
            crate::system::lemma_views_preserved(old(systems)@, systems@, self.spec_cutoff());
            assert forall|i: int| 0 <= i < samples.rows_view().len() implies {
                let row = #[trigger] samples.rows_view()[i];
                &&& 0 <= row[0]
                &&& (row[0] as int) < systems@.len()
                &&& 0 <= row[1]
                &&& (row[1] as int) < systems@[row[0] as int].spec_species().len()
            } by {
                let row = samples.rows_view()[i];
                assert(samples.rows_view().contains(row));
                assert(tb_row_in(views, self.spec_self_contribution(), row));
                if tb_row_in_prefix(views, views.len() as int, 0, row) {
                    let (s2, c2, t2) = choose|s2: int, c2: int, t2: int|
                        0 <= s2 < views.len() && 0 <= c2 < views[s2].species.len() && (s2
                            < views.len() as int || (s2 == views.len() as int && c2 < 0)) && 0 <= t2
                            < spec_triplets(
                            crate::system::spec_pairs_containing(views[s2].pairs, c2 as usize),
                            c2 as usize,
                        ).len() && row == tb_triplet_row(views[s2], s2, c2, t2);
                    assert(views[s2].bounded());
                    assert(views[s2] == crate::system::views_of(
                        systems@,
                        self.spec_cutoff(),
                    )[s2]);
                } else {
                    let (s2, c2) = choose|s2: int, c2: int|
                        0 <= s2 < views.len() && 0 <= c2 < views[s2].species.len() && (s2
                            < views.len() as int || (s2 == views.len() as int && c2 < 0))
                            && tb_self_center_has(views[s2], s2, c2, row);
                    assert(views[s2].bounded());
                    if row == tb_self_row(views[s2], s2, c2) {
                    } else {
                        let q = choose|q: int|
                            0 <= q < crate::system::spec_pairs_containing(
                                views[s2].pairs,
                                c2 as usize,
                            ).len() && row == tb_pair_row(views[s2], s2, c2, q);
                    }
                    assert(views[s2] == crate::system::views_of(
                        systems@,
                        self.spec_cutoff(),
                    )[s2]);
                }
            }
        }
        let gradients = match self.gradients_for(systems, &samples) {
            Ok(g) => g,
            Err(e) => {
                return Err(e);
            },
        };
        Ok((samples, Some(gradients)))
    }
}

} // verus!
