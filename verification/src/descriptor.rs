//! Dense descriptors and densification.
//!
//! A `Descriptor` pairs a dense environments-by-features tensor with the
//! labels of both axes, and optionally the gradients of the values with
//! respect to atomic positions. Densifying moves one environment variable
//! into the features: environments are grouped by the remaining columns,
//! and each group's values are scattered into a feature block chosen by the
//! moved variable's value, in first-occurrence order.

use vstd::prelude::*;

use crate::indexset::{
    dedup_rows, index_set_insert, index_set_into_rows, index_set_new, index_set_position,
    index_set_rows, lemma_dedup_rows,
};
use crate::labels::{copy_row, Labels};
use crate::tensor::{empty_2d, valid_index, DenseTensor};
use crate::Error;

verus! {

/// The rows with the entry of column `vi` dropped from each.
pub open spec fn cleaned_rows(rows: Seq<Seq<i32>>, vi: int) -> Seq<Seq<i32>> {
    rows.map_values(|r: Seq<i32>| r.remove(vi))
}

/// One-entry rows holding column `vi` of each row.
pub open spec fn column_rows(rows: Seq<Seq<i32>>, vi: int) -> Seq<Seq<i32>> {
    rows.map_values(|r: Seq<i32>| seq![r[vi]])
}

/// The result of moving one variable out of a set of labels.
pub struct RemovedResult {
    /// The labels without the variable, duplicates dropped in
    /// first-occurrence order.
    pub indexes: Labels,
    /// The values the variable took, in first-occurrence order.
    pub new_features: Vec<i32>,
    /// For every original row: the index of its cleaned row in `indexes`,
    /// and the index of its variable value in `new_features`.
    pub mapping: Vec<(usize, usize)>,
}

/// `r` is the correct removal of column `vi` from labels with the given
/// names and rows.
pub open spec fn removed_ok(
    r: RemovedResult,
    names: Seq<Seq<char>>,
    rows: Seq<Seq<i32>>,
    vi: int,
) -> bool {
    &&& r.indexes.wf()
    &&& r.indexes.names_view() == names.remove(vi)
    &&& r.indexes.rows_view() == dedup_rows(cleaned_rows(rows, vi))
    &&& r.new_features@.map_values(|x: i32| seq![x]) == dedup_rows(column_rows(rows, vi))
    &&& r.mapping@.len() == rows.len()
    &&& forall|o: int|
        0 <= o < rows.len() ==> ((#[trigger] r.mapping@[o]).0 as int)
            < r.indexes.rows_view().len() && r.indexes.rows_view()[r.mapping@[o].0 as int]
            == rows[o].remove(vi) && (r.mapping@[o].1 as int) < r.new_features@.len()
            && r.new_features@[r.mapping@[o].1 as int] == rows[o][vi]
}

/// Copy a row, leaving out the entry of column `vi`.
fn row_without_column(row: &Vec<i32>, vi: usize) -> (r: Vec<i32>)
    requires
        vi < row@.len(),
    ensures
        r@ == row@.remove(vi as int),
{
    let mut out: Vec<i32> = Vec::new();
    let w = row.len();
    let mut q: usize = 0;
    while q < vi
        invariant
            q <= vi,
            vi < w,
            w == row@.len(),
            out@ == row@.take(q as int),
        decreases vi - q,
    {
        out.push(row[q]);
        proof {
            assert(row@.take(q as int).push(row@[q as int]) =~= row@.take(q + 1));
        }
        q += 1;
    }
    let mut q2: usize = vi + 1;
    while q2 < w
        invariant
            vi < q2 <= w || q2 == vi + 1,
            vi + 1 <= q2 <= w,
            w == row@.len(),
            out@ == row@.take(vi as int) + row@.subrange(vi + 1, q2 as int),
        decreases w - q2,
    {
        out.push(row[q2]);
        proof {
            assert((row@.take(vi as int) + row@.subrange(vi + 1, q2 as int)).push(row@[q2 as int])
                =~= row@.take(vi as int) + row@.subrange(vi + 1, q2 + 1));
        }
        q2 += 1;
    }
    proof {
        assert(row@.take(vi as int) + row@.subrange(vi as int, vi + 1)
            =~= row@.take(vi + 1));
        assert(out@ =~= row@.remove(vi as int)) by {
            assert(row@.remove(vi as int) =~= row@.take(vi as int) + row@.subrange(
                vi + 1,
                w as int,
            ));
        }
    }
    out
}

/// Remove column `variable_i` from the given labels: deduplicate the
/// remaining columns and the removed values in first-occurrence order, and
/// record for every original row where its pieces went.
pub fn remove_from_indexes(indexes: &Labels, variable_i: usize) -> (r: RemovedResult)
    requires
        indexes.wf(),
        variable_i < indexes.spec_width(),
    ensures
        removed_ok(r, indexes.names_view(), indexes.rows_view(), variable_i as int),
{
    let ghost rows = indexes.rows_view();
    let ghost vi = variable_i as int;
    let ghost gen_e = cleaned_rows(rows, vi);
    let ghost gen_v = column_rows(rows, vi);
    let mut env_set = index_set_new();
    let mut val_set = index_set_new();
    let mut mapping: Vec<(usize, usize)> = Vec::new();
    let n = indexes.count();
    let mut o: usize = 0;
    proof {
        assert(gen_e.take(0) =~= Seq::<Seq<i32>>::empty());
        assert(gen_v.take(0) =~= Seq::<Seq<i32>>::empty());
    }
    while o < n
        invariant
            n == rows.len(),
            o <= n,
            rows == indexes.rows_view(),
            indexes.wf(),
            variable_i < indexes.spec_width(),
            vi == variable_i as int,
            gen_e == cleaned_rows(rows, vi),
            gen_v == column_rows(rows, vi),
            index_set_rows(env_set) == dedup_rows(gen_e.take(o as int)),
            index_set_rows(val_set) == dedup_rows(gen_v.take(o as int)),
            mapping@.len() == o,
            forall|o2: int|
                0 <= o2 < o ==> ((#[trigger] mapping@[o2]).0 as int) < index_set_rows(
                    env_set,
                ).len() && index_set_rows(env_set)[mapping@[o2].0 as int] == rows[o2].remove(vi)
                    && (mapping@[o2].1 as int) < index_set_rows(val_set).len() && index_set_rows(
                    val_set,
                )[mapping@[o2].1 as int] == seq![rows[o2][vi]],
        decreases n - o,
    {
        let row = indexes.row(o);
        proof {
            assert(row@ == rows[o as int]);
            assert(rows[o as int].len() == indexes.spec_width());
        }
        let cleaned = row_without_column(row, variable_i);
        let cleaned_copy = copy_row(&cleaned);
        let mut valv: Vec<i32> = Vec::new();
        valv.push(row[variable_i]);
        let val_copy = copy_row(&valv);
        proof {
            assert(valv@ =~= seq![rows[o as int][vi]]);
            assert(gen_e.take(o + 1).drop_last() =~= gen_e.take(o as int));
            assert(gen_e.take(o + 1).last() == gen_e[o as int]);
            assert(gen_e[o as int] == rows[o as int].remove(vi));
            assert(gen_v.take(o + 1).drop_last() =~= gen_v.take(o as int));
            assert(gen_v.take(o + 1).last() == gen_v[o as int]);
            assert(gen_v[o as int] == seq![rows[o as int][vi]]);
        }
        let ghost env_before = index_set_rows(env_set);
        index_set_insert(&mut env_set, cleaned);
        let e = match index_set_position(&env_set, &cleaned_copy) {
            Some(i) => i,
            None => {
                proof {
                    assert(index_set_rows(env_set).contains(cleaned_copy@)) by {
                        if env_before.contains(cleaned_copy@) {
                            let k = choose|k: int|
                                0 <= k < env_before.len() && env_before[k] == cleaned_copy@;
                            assert(index_set_rows(env_set)[k] == cleaned_copy@);
                        } else {
                            assert(index_set_rows(env_set)[env_before.len() as int]
                                == cleaned_copy@);
                        }
                    }
                }
                vstd::pervasive::unreached()
            },
        };
        let ghost val_before = index_set_rows(val_set);
        index_set_insert(&mut val_set, valv);
        let b = match index_set_position(&val_set, &val_copy) {
            Some(i) => i,
            None => {
                proof {
                    assert(index_set_rows(val_set).contains(val_copy@)) by {
                        if val_before.contains(val_copy@) {
                            let k = choose|k: int|
                                0 <= k < val_before.len() && val_before[k] == val_copy@;
                            assert(index_set_rows(val_set)[k] == val_copy@);
                        } else {
                            assert(index_set_rows(val_set)[val_before.len() as int] == val_copy@);
                        }
                    }
                }
                vstd::pervasive::unreached()
            },
        };
        mapping.push((e, b));
        proof {
            assert forall|o2: int| 0 <= o2 < o + 1 implies ((#[trigger] mapping@[o2]).0 as int)
                < index_set_rows(env_set).len() && index_set_rows(env_set)[mapping@[o2].0 as int]
                == rows[o2].remove(vi) && (mapping@[o2].1 as int) < index_set_rows(val_set).len()
                && index_set_rows(val_set)[mapping@[o2].1 as int] == seq![rows[o2][vi]] by {
                if o2 < o {
                    // the sets only grew at the end, earlier indices kept
                    // their rows
                    assert(index_set_rows(env_set) == env_before || index_set_rows(env_set)
                        == env_before.push(cleaned_copy@));
                    assert(index_set_rows(val_set) == val_before || index_set_rows(val_set)
                        == val_before.push(val_copy@));
                } else {
                    assert(mapping@[o2] == (e, b));
                }
            }
        }
        o += 1;
    }
    proof {
        assert(gen_e.take(n as int) =~= gen_e);
        assert(gen_v.take(n as int) =~= gen_v);
    }
    // names without the removed column
    let old_names = indexes.names();
    let mut new_names: Vec<String> = Vec::new();
    let w = old_names.len();
    let mut q: usize = 0;
    while q < w
        invariant
            q <= w,
            w == old_names@.len(),
            variable_i < w,
            old_names@.map_values(|s: String| s@) == indexes.names_view(),
            new_names@.len() == (if q <= variable_i {
                q as int
            } else {
                q - 1
            }),
            forall|k: int|
                0 <= k < new_names@.len() ==> (#[trigger] new_names@[k])@
                    == indexes.names_view().remove(variable_i as int)[k],
        decreases w - q,
    {
        if q != variable_i {
            proof {
                let removed = indexes.names_view().remove(variable_i as int);
                if q < variable_i {
                    assert(removed[q as int] == indexes.names_view()[q as int]);
                } else {
                    assert(removed[q - 1] == indexes.names_view()[q as int]);
                }
                assert(indexes.names_view()[q as int] == old_names@[q as int]@);
            }
            new_names.push(old_names[q].clone());
        }
        q += 1;
    }
    let ghost final_env = index_set_rows(env_set);
    let ghost final_val = index_set_rows(val_set);
    let env_rows = index_set_into_rows(env_set);
    proof {
        lemma_dedup_rows(gen_e);
        lemma_dedup_rows(gen_v);
        let rview = env_rows@.map_values(|v: Vec<i32>| v@);
        assert(rview == final_env);
        assert(new_names@.len() == indexes.spec_width() - 1);
        assert forall|i: int| 0 <= i < env_rows@.len() implies (#[trigger] env_rows@[i])@.len()
            == new_names@.len() by {
            assert(rview[i] == env_rows@[i]@);
            assert(final_env.contains(rview[i]));
            assert(gen_e.contains(rview[i]));
            let g = choose|g: int| 0 <= g < gen_e.len() && gen_e[g] == rview[i];
            assert(gen_e[g] == rows[g].remove(vi));
            assert(rows[g].len() == indexes.spec_width());
        }
        assert forall|i: int, j: int| 0 <= i < j < env_rows@.len() implies env_rows@[i]@
            != env_rows@[j]@ by {
            assert(rview[i] == env_rows@[i]@ && rview[j] == env_rows@[j]@);
        }
        assert forall|k: int|
            0 <= k < new_names@.len() implies new_names@.map_values(|s: String| s@)[k]
            == indexes.names_view().remove(variable_i as int)[k] by {
            assert((#[trigger] new_names@[k])@ == indexes.names_view().remove(
                variable_i as int,
            )[k]);
            assert(new_names@.map_values(|s: String| s@)[k] == new_names@[k]@);
        }
        assert(new_names@.map_values(|s: String| s@) =~= indexes.names_view().remove(
            variable_i as int,
        ));
    }
    let new_indexes = Labels::from_parts(new_names, env_rows);
    let val_rows = index_set_into_rows(val_set);
    let mut new_features: Vec<i32> = Vec::new();
    let nv = val_rows.len();
    let ghost vview = val_rows@.map_values(|v: Vec<i32>| v@);
    proof {
        assert(vview == final_val);
        assert forall|i: int| 0 <= i < vview.len() implies (#[trigger] vview[i]).len() == 1 by {
            assert(final_val.contains(vview[i]));
            assert(gen_v.contains(vview[i]));
            let g = choose|g: int| 0 <= g < gen_v.len() && gen_v[g] == vview[i];
        }
    }
    let mut i: usize = 0;
    while i < nv
        invariant
            i <= nv,
            nv == val_rows@.len(),
            vview == val_rows@.map_values(|v: Vec<i32>| v@),
            forall|k: int| 0 <= k < vview.len() ==> (#[trigger] vview[k]).len() == 1,
            new_features@.len() == i,
            forall|k: int| 0 <= k < i ==> seq![#[trigger] new_features@[k]] == vview[k],
        decreases nv - i,
    {
        proof {
            assert(vview[i as int] == val_rows@[i as int]@);
        }
        let v = val_rows[i][0];
        new_features.push(v);
        proof {
            assert(seq![v] =~= vview[i as int]);
        }
        i += 1;
    }
    proof {
        assert(new_features@.map_values(|x: i32| seq![x]) =~= final_val);
        assert forall|o2: int| 0 <= o2 < rows.len() implies ((#[trigger] mapping@[o2]).0 as int)
            < new_indexes.rows_view().len() && new_indexes.rows_view()[mapping@[o2].0 as int]
            == rows[o2].remove(vi) && (mapping@[o2].1 as int) < new_features@.len()
            && new_features@[mapping@[o2].1 as int] == rows[o2][vi] by {
            assert(final_env[mapping@[o2].0 as int] == rows[o2].remove(vi));
            assert(final_val[mapping@[o2].1 as int] == seq![rows[o2][vi]]);
            assert((mapping@[o2].1 as int) < new_features@.map_values(|x: i32| seq![x]).len());
            assert(new_features@.map_values(|x: i32| seq![x])[mapping@[o2].1 as int]
                == seq![new_features@[mapping@[o2].1 as int]]);
            assert(seq![new_features@[mapping@[o2].1 as int]] == seq![rows[o2][vi]]);
            assert(seq![new_features@[mapping@[o2].1 as int]][0] == seq![rows[o2][vi]][0]);
        }
    }
    RemovedResult { indexes: new_indexes, new_features, mapping }
}

} // verus!

verus! {

/// A two-axis tensor index.
pub open spec fn idx2(i: int, j: int) -> Seq<int> {
    seq![i, j]
}

/// Build a two-axis index vector.
fn idx2v(i: usize, j: usize) -> (r: Vec<usize>)
    ensures
        r@.map_values(|x: usize| x as int) == idx2(i as int, j as int),
{
    let mut v: Vec<usize> = Vec::new();
    v.push(i);
    v.push(j);
    proof {
        assert(v@.map_values(|x: usize| x as int) =~= idx2(i as int, j as int));
    }
    v
}

/// The index of the one row of `rows` equal to `x`.
pub open spec fn row_index_of(rows: Seq<Seq<i32>>, x: Seq<i32>) -> int {
    choose|i: int| 0 <= i < rows.len() && rows[i] == x
}

/// The index of the one entry of `vals` equal to `x`.
pub open spec fn val_index_of(vals: Seq<i32>, x: i32) -> int {
    choose|i: int| 0 <= i < vals.len() && vals[i] == x
}

/// Some environment row owes the cell `(e, j)` of a densified tensor a
/// value: the cell's row holds the environment's remaining columns and the
/// cell's feature block is the one of the environment's moved value.
pub open spec fn cell_covered(
    rows: Seq<Seq<i32>>,
    vi: int,
    env_rows: Seq<Seq<i32>>,
    vals: Seq<i32>,
    nf: int,
    e: int,
    j: int,
) -> bool {
    exists|o: int|
        0 <= o < rows.len() && env_rows[e] == (#[trigger] rows[o]).remove(vi) && vals[j / nf]
            == rows[o][vi]
}

/// Densification is owed success: the gradient rows (if any) take the
/// variable to the same values in the same first-occurrence order as the
/// environments, and the widened tensors fit the address space.
pub open spec fn densify_succeeds(d: Descriptor, variable: Seq<char>) -> bool {
    let vi = first_name_index(d.environments.names_view(), variable);
    let rows = d.environments.rows_view();
    let vals = unwrap_singletons(dedup_rows(column_rows(rows, vi)));
    let nf = d.features.rows_view().len() as int;
    &&& (d.gradients_indexes matches Some(gi) ==> dedup_rows(
        column_rows(gi.rows_view(), first_name_index(gi.names_view(), variable)),
    ) == dedup_rows(column_rows(rows, vi)))
    &&& vals.len() * nf <= usize::MAX
    &&& dedup_rows(cleaned_rows(rows, vi)).len() * (vals.len() * nf) <= usize::MAX
    &&& (d.gradients_indexes matches Some(gi) ==> dedup_rows(
        cleaned_rows(gi.rows_view(), first_name_index(gi.names_view(), variable)),
    ).len() * (vals.len() * nf) <= usize::MAX)
}

/// The feature rows after densification: for every moved value in order,
/// one copy of every old feature row with the value in front.
pub open spec fn densified_feature_rows(vals: Seq<i32>, frows: Seq<Seq<i32>>) -> Seq<Seq<i32>>
    decreases vals.len(),
{
    if vals.len() == 0 {
        Seq::empty()
    } else {
        densified_feature_rows(vals.drop_last(), frows) + frows.map_values(
            |r: Seq<i32>| seq![vals.last()].add(r),
        )
    }
}

/// Densified feature rows are distinct and one wider than the old rows.
pub proof fn lemma_densified_feature_rows_shape(vals: Seq<i32>, frows: Seq<Seq<i32>>, w: int)
    requires
        forall|i: int, j: int| 0 <= i < j < vals.len() ==> vals[i] != vals[j],
        forall|i: int, j: int| 0 <= i < j < frows.len() ==> frows[i] != frows[j],
        forall|i: int| 0 <= i < frows.len() ==> (#[trigger] frows[i]).len() == w,
        w >= 0,
    ensures
        densified_feature_rows(vals, frows).len() == vals.len() * frows.len(),
        forall|i: int|
            0 <= i < densified_feature_rows(vals, frows).len()
                ==> (#[trigger] densified_feature_rows(vals, frows)[i]).len() == w + 1,
        forall|i: int, j: int|
            0 <= i < j < densified_feature_rows(vals, frows).len() ==> densified_feature_rows(
                vals,
                frows,
            )[i] != densified_feature_rows(vals, frows)[j],
        frows.len() > 0 ==> forall|i: int|
            0 <= i < densified_feature_rows(vals, frows).len()
                ==> (#[trigger] densified_feature_rows(vals, frows)[i]) == seq![
                vals[i / frows.len() as int],
            ].add(frows[i % frows.len() as int]),
    decreases vals.len(),
{
    if vals.len() > 0 {
        let sub = vals.drop_last();
        lemma_densified_feature_rows_shape(sub, frows, w);
        let prefix = densified_feature_rows(sub, frows);
        let seg = frows.map_values(|r: Seq<i32>| seq![vals.last()].add(r));
        let whole = densified_feature_rows(vals, frows);
        let nf = frows.len() as int;
        assert(prefix.len() == (vals.len() - 1) * nf) by (nonlinear_arith)
            requires
                prefix.len() == sub.len() * frows.len(),
                sub.len() == vals.len() - 1,
                nf == frows.len(),
        ;
        assert(whole.len() == vals.len() * nf) by (nonlinear_arith)
            requires
                whole.len() == prefix.len() + nf,
                prefix.len() == (vals.len() - 1) * nf,
        ;
        if nf > 0 {
            assert forall|i: int| 0 <= i < whole.len() implies (#[trigger] whole[i]) == seq![
                vals[i / nf],
            ].add(frows[i % nf]) && whole[i].len() == w + 1 by {
                if i < prefix.len() {
                    assert(whole[i] == prefix[i]);
                    assert(prefix[i] == seq![sub[i / nf]].add(frows[i % nf]));
                    assert(0 <= i / nf < sub.len()) by (nonlinear_arith)
                        requires
                            0 <= i < sub.len() * nf,
                            nf > 0,
                    ;
                    assert(sub[i / nf] == vals[i / nf]);
                } else {
                    assert(whole[i] == seg[i - prefix.len()]);
                    assert(seg[i - prefix.len()] == seq![vals.last()].add(frows[i
                        - prefix.len()]));
                    assert(i / nf == vals.len() - 1 && i % nf == i - prefix.len())
                        by (nonlinear_arith)
                        requires
                            prefix.len() == (vals.len() - 1) * nf,
                            prefix.len() <= i < vals.len() * nf,
                            nf > 0,
                    ;
                }
            }
            assert forall|i: int, j: int| 0 <= i < j < whole.len() implies whole[i] != whole[j] by {
                assert(0 <= i / nf < vals.len() && 0 <= j / nf < vals.len() && 0 <= i % nf < nf && 0
                    <= j % nf < nf && (i / nf != j / nf || i % nf != j % nf)) by (nonlinear_arith)
                    requires
                        0 <= i < j < vals.len() * nf,
                        nf > 0,
                ;
                if whole[i] == whole[j] {
                    assert(whole[i][0] == vals[i / nf] && whole[j][0] == vals[j / nf]);
                    if i / nf != j / nf {
                        assert(vals[i / nf] != vals[j / nf]);
                    } else {
                        assert(whole[i].subrange(1, whole[i].len() as int) =~= frows[i % nf]);
                        assert(whole[j].subrange(1, whole[j].len() as int) =~= frows[j % nf]);
                        assert(frows[i % nf] != frows[j % nf]);
                    }
                }
            }
        }
    }
}

/// Two rows agreeing outside column `vi` and at column `vi` are one row.
pub proof fn lemma_row_recompose(a: Seq<i32>, b: Seq<i32>, vi: int)
    requires
        a.len() == b.len(),
        0 <= vi < a.len(),
        a.remove(vi) == b.remove(vi),
        a[vi] == b[vi],
    ensures
        a == b,
{
    assert forall|k: int| 0 <= k < a.len() implies a[k] == b[k] by {
        if k < vi {
            assert(a.remove(vi)[k] == a[k] && b.remove(vi)[k] == b[k]);
        } else if k > vi {
            assert(a.remove(vi)[k - 1] == a[k] && b.remove(vi)[k - 1] == b[k]);
        }
    }
    assert(a =~= b);
}

/// Scatter the rows of `values` into a wider tensor: row `o` lands in row
/// `mapping[o].0`, at the feature block `mapping[o].1`. Distinct rows land
/// in distinct places; every untouched entry is zero. `None` when the new
/// entry count overflows the address space.
fn scatter_rows(
    values: &DenseTensor,
    mapping: &Vec<(usize, usize)>,
    n_new: usize,
    n_vals: usize,
) -> (r: Option<DenseTensor>)
    requires
        values.wf(),
        values.spec_shape().len() == 2,
        mapping@.len() == values.spec_shape()[0],
        forall|o: int|
            0 <= o < mapping@.len() ==> ((#[trigger] mapping@[o]).0 as int) < n_new && (
            mapping@[o].1 as int) < n_vals,
        forall|o1: int, o2: int| 0 <= o1 < o2 < mapping@.len() ==> mapping@[o1] != mapping@[o2],
    ensures
        r matches Some(t) ==> {
            let nf = values.spec_shape()[1] as int;
            &&& t.wf()
            &&& t.spec_shape().len() == 2
            &&& t.spec_shape()[0] == n_new
            &&& t.spec_shape()[1] == n_vals * nf
            &&& forall|o: int, f: int|
                0 <= o < mapping@.len() && 0 <= f < nf ==> #[trigger] t.at(
                    idx2((mapping@[o].0 as int), (mapping@[o].1 as int) * nf + f),
                ) == values.at(idx2(o, f))
            &&& forall|e: int, j: int|
                0 <= e < n_new && 0 <= j < n_vals * nf && !(exists|o: int|
                    0 <= o < mapping@.len() && (#[trigger] mapping@[o]).0 == e && mapping@[o].1
                        == j / nf) ==> #[trigger] t.at(idx2(e, j)) == 0u64
        },
        r is Some <==> ((n_vals as int) * (values.spec_shape()[1] as int) <= usize::MAX && (
        n_new as int) * ((n_vals as int) * (values.spec_shape()[1] as int)) <= usize::MAX),
{
    let nf = values.shape()[1];
    let cols = match n_vals.checked_mul(nf) {
        Some(c) => c,
        None => {
            return None;
        },
    };
    let mut shape: Vec<usize> = Vec::new();
    shape.push(n_new);
    shape.push(cols);
    proof {
        assert(shape@ =~= seq![n_new, cols]);
        crate::tensor::lemma_shape2_fits(n_new, cols);
    }
    let mut out = match DenseTensor::zeros(shape) {
        Some(t) => t,
        None => {
            return None;
        },
    };
    let ghost told = out;
    let n_old = mapping.len();
    let mut o: usize = 0;
    while o < n_old
        invariant
            n_old == mapping@.len(),
            o <= n_old,
            values.wf(),
            values.spec_shape().len() == 2,
            mapping@.len() == values.spec_shape()[0],
            nf == values.spec_shape()[1],
            cols == n_vals * (nf as int),
            forall|o2: int|
                0 <= o2 < mapping@.len() ==> ((#[trigger] mapping@[o2]).0 as int) < n_new && (
                mapping@[o2].1 as int) < n_vals,
            forall|o1: int, o2: int|
                0 <= o1 < o2 < mapping@.len() ==> mapping@[o1] != mapping@[o2],
            out.wf(),
            out.spec_shape() == seq![n_new, cols],
            forall|o2: int, f: int|
                0 <= o2 < o && 0 <= f < nf ==> #[trigger] out.at(
                    idx2((mapping@[o2].0 as int), (mapping@[o2].1 as int) * (nf as int) + f),
                ) == values.at(idx2(o2, f)),
            forall|e: int, j: int|
                0 <= e < n_new && 0 <= j < cols && !(exists|o2: int|
                    0 <= o2 < o && (#[trigger] mapping@[o2]).0 == e && (mapping@[o2].1 as int) == j
                        / (nf as int)) ==> #[trigger] out.at(idx2(e, j)) == 0u64,
        decreases n_old - o,
    {
        let (e, b) = mapping[o];
        let mut f: usize = 0;
        while f < nf
            invariant
                n_old == mapping@.len(),
                o < n_old,
                f <= nf,
                values.wf(),
                values.spec_shape().len() == 2,
                mapping@.len() == values.spec_shape()[0],
                nf == values.spec_shape()[1],
                cols == n_vals * (nf as int),
                (e, b) == mapping@[o as int],
                (e as int) < n_new,
                (b as int) < n_vals,
                forall|o2: int|
                    0 <= o2 < mapping@.len() ==> ((#[trigger] mapping@[o2]).0 as int) < n_new && (
                    mapping@[o2].1 as int) < n_vals,
                forall|o1: int, o2: int|
                    0 <= o1 < o2 < mapping@.len() ==> mapping@[o1] != mapping@[o2],
                out.wf(),
                out.spec_shape() == seq![n_new, cols],
                forall|o2: int, f2: int|
                    0 <= o2 < o && 0 <= f2 < nf ==> #[trigger] out.at(
                        idx2((mapping@[o2].0 as int), (mapping@[o2].1 as int) * (nf as int) + f2),
                    ) == values.at(idx2(o2, f2)),
                forall|f2: int|
                    0 <= f2 < f ==> #[trigger] out.at(
                        idx2(e as int, (b as int) * (nf as int) + f2),
                    ) == values.at(idx2(o as int, f2)),
                forall|e2: int, j: int|
                    0 <= e2 < n_new && 0 <= j < cols && !(exists|o2: int|
                        0 <= o2 < o && (#[trigger] mapping@[o2]).0 == e2 && (mapping@[o2].1 as int)
                            == j / (nf as int)) && !(e2 == e && (b as int) * (nf as int) <= j < (
                    b as int) * (nf as int) + f) ==> #[trigger] out.at(idx2(e2, j)) == 0u64,
            decreases nf - f,
        {
            proof {
                assert((b as int) * (nf as int) + (f as int) < cols) by (nonlinear_arith)
                    requires
                        cols == n_vals * (nf as int),
                        0 <= (b as int) < n_vals,
                        0 <= (f as int) < (nf as int),
                ;
                assert(0 <= (b as int) * (nf as int)) by (nonlinear_arith)
                    requires
                        0 <= (b as int),
                        0 <= (nf as int),
                ;
            }
            let j = b * nf + f;
            let src = idx2v(o, f);
            let dst = idx2v(e, j);
            proof {
                assert(valid_index(values.spec_shape(), idx2(o as int, f as int))) by {
                    assert(idx2(o as int, f as int)[0] == o as int && idx2(o as int, f as int)[1]
                        == f as int);
                }
                assert(valid_index(out.spec_shape(), idx2(e as int, j as int))) by {
                    assert(idx2(e as int, j as int)[0] == e as int && idx2(e as int, j as int)[1]
                        == j as int);
                }
            }
            let v = values.get(&src);
            out.set(&dst, v);
            proof {
                assert((j as int) / (nf as int) == b as int && (j as int) % (nf as int)
                    == f as int) by (nonlinear_arith)
                    requires
                        j == (b as int) * (nf as int) + (f as int),
                        0 <= (f as int) < (nf as int),
                        0 <= b as int,
                ;
                assert forall|o2: int, f2: int|
                    0 <= o2 < o && 0 <= f2 < nf implies #[trigger] out.at(
                        idx2((mapping@[o2].0 as int), (mapping@[o2].1 as int) * (nf as int) + f2),
                    ) == values.at(idx2(o2, f2)) by {
                    let e2 = mapping@[o2].0 as int;
                    let j2 = (mapping@[o2].1 as int) * (nf as int) + f2;
                    assert(j2 / (nf as int) == mapping@[o2].1 as int && j2 % (nf as int) == f2)
                        by (nonlinear_arith)
                        requires
                            j2 == (mapping@[o2].1 as int) * (nf as int) + f2,
                            0 <= f2 < (nf as int),
                            0 <= mapping@[o2].1 as int,
                    ;
                    assert(0 <= j2 < cols) by (nonlinear_arith)
                        requires
                            j2 == (mapping@[o2].1 as int) * (nf as int) + f2,
                            0 <= f2 < (nf as int),
                            0 <= (mapping@[o2].1 as int) < n_vals,
                            cols == n_vals * (nf as int),
                    ;
                    if e2 == e as int && j2 == j as int {
                        assert(mapping@[o2].1 == b && f2 == f as int);
                        assert(mapping@[o2] != mapping@[o as int]);
                        assert(mapping@[o2].0 == e && mapping@[o2].1 == b);
                    } else {
                        assert(idx2(e2, j2) != idx2(e as int, j as int)) by {
                            assert(idx2(e2, j2)[0] == e2 && idx2(e2, j2)[1] == j2);
                            assert(idx2(e as int, j as int)[0] == e as int && idx2(
                                e as int,
                                j as int,
                            )[1] == j as int);
                        }
                        assert(valid_index(out.spec_shape(), idx2(e2, j2))) by {
                            assert(idx2(e2, j2)[0] == e2 && idx2(e2, j2)[1] == j2);
                        }
                    }
                }
                assert forall|e2: int, j2: int|
                    0 <= e2 < n_new && 0 <= j2 < cols && !(exists|o2: int|
                        0 <= o2 < o && (#[trigger] mapping@[o2]).0 == e2 && (mapping@[o2].1 as int)
                            == j2 / (nf as int)) && !(e2 == e && (b as int) * (nf as int) <= j2 < (
                    b as int) * (nf as int) + f + 1) implies #[trigger] out.at(idx2(e2, j2))
                    == 0u64 by {
                    assert(idx2(e2, j2) != idx2(e as int, j as int)) by {
                        assert(idx2(e2, j2)[0] == e2 && idx2(e2, j2)[1] == j2);
                        assert(idx2(e as int, j as int)[0] == e as int && idx2(
                            e as int,
                            j as int,
                        )[1] == j as int);
                    }
                    assert(valid_index(out.spec_shape(), idx2(e2, j2))) by {
                        assert(idx2(e2, j2)[0] == e2 && idx2(e2, j2)[1] == j2);
                    }
                }
            }
            f += 1;
        }
        proof {
            // the cells of this row's block are now all written
            assert forall|e2: int, j2: int|
                0 <= e2 < n_new && 0 <= j2 < cols && !(exists|o2: int|
                    0 <= o2 < o + 1 && (#[trigger] mapping@[o2]).0 == e2 && (mapping@[o2].1 as int)
                        == j2 / (nf as int)) implies #[trigger] out.at(idx2(e2, j2)) == 0u64 by {
                assert(!(exists|o2: int|
                    0 <= o2 < o && (#[trigger] mapping@[o2]).0 == e2 && (mapping@[o2].1 as int)
                        == j2 / (nf as int)));
                if e2 == e as int && (b as int) * (nf as int) <= j2 < (b as int) * (nf as int) + (
                nf as int) {
                    assert(j2 / (nf as int) == b as int) by (nonlinear_arith)
                        requires
                            (b as int) * (nf as int) <= j2 < (b as int) * (nf as int) + (nf as int),
                            (nf as int) > 0,
                            0 <= b as int,
                    ;
                    assert(mapping@[o as int].0 == e2 && (mapping@[o as int].1 as int) == j2 / (
                    nf as int));
                }
            }
        }
        o += 1;
    }
    Some(out)
}

} // verus!

verus! {

/// The single values of a sequence of one-entry rows.
pub open spec fn unwrap_singletons(s: Seq<Seq<i32>>) -> Seq<i32> {
    s.map_values(|r: Seq<i32>| r[0])
}

/// The first column with the given name.
pub open spec fn first_name_index(names: Seq<Seq<char>>, x: Seq<char>) -> int
    decreases names.len(),
{
    if names.len() == 0 {
        0
    } else if names[0] == x {
        0
    } else {
        1 + first_name_index(names.skip(1), x)
    }
}

/// A found index with no earlier match is the first index of a name.
pub proof fn lemma_first_name_index(names: Seq<Seq<char>>, x: Seq<char>, i: int)
    requires
        0 <= i < names.len(),
        names[i] == x,
        forall|k: int| 0 <= k < i ==> names[k] != x,
    ensures
        first_name_index(names, x) == i,
    decreases i,
{
    if i == 0 {
    } else {
        assert(names[0] != x);
        assert(names.skip(1)[i - 1] == names[i]);
        assert(forall|k: int| 0 <= k < i - 1 ==> #[trigger] names.skip(1)[k] == names[k + 1]);
        lemma_first_name_index(names.skip(1), x, i - 1);
    }
}

/// The first column of `names` whose text equals `needle`.
fn find_name(names: &Vec<String>, needle: &String) -> (r: Option<usize>)
    ensures
        (match r {
            Some(i) => i < names@.len() && names@[i as int]@ == needle@ && forall|k: int|
                0 <= k < i ==> (#[trigger] names@[k])@ != needle@,
            None => forall|k: int| 0 <= k < names@.len() ==> (#[trigger] names@[k])@ != needle@,
        }),
{
    let n = names.len();
    let mut i: usize = 0;
    while i < n
        invariant
            i <= n,
            n == names@.len(),
            forall|k: int| 0 <= k < i ==> (#[trigger] names@[k])@ != needle@,
        decreases n - i,
    {
        if names[i].eq(needle) {
            return Some(i);
        }
        i += 1;
    }
    None
}

/// Distinct rows stay distinct when a distinct value row and value agree.
pub proof fn lemma_mapping_injective(
    r: RemovedResult,
    names: Seq<Seq<char>>,
    rows: Seq<Seq<i32>>,
    vi: int,
    w: int,
)
    requires
        removed_ok(r, names, rows, vi),
        0 <= vi < w,
        forall|i: int| 0 <= i < rows.len() ==> (#[trigger] rows[i]).len() == w,
        forall|i: int, j: int| 0 <= i < j < rows.len() ==> rows[i] != rows[j],
    ensures
        forall|o1: int, o2: int| 0 <= o1 < o2 < rows.len() ==> r.mapping@[o1] != r.mapping@[o2],
{
    assert forall|o1: int, o2: int| 0 <= o1 < o2 < rows.len() implies r.mapping@[o1]
        != r.mapping@[o2] by {
        if r.mapping@[o1] == r.mapping@[o2] {
            assert(rows[o1].remove(vi) == rows[o2].remove(vi));
            assert(rows[o1][vi] == rows[o2][vi]);
            lemma_row_recompose(rows[o1], rows[o2], vi);
        }
    }
}

/// Build the densified feature labels: the moved variable in front of every
/// old feature row, one block per moved value, in order.
fn densified_features(variable: &String, vals: &Vec<i32>, features: &Labels) -> (r: Labels)
    requires
        features.wf(),
        forall|i: int, j: int| 0 <= i < j < vals@.len() ==> vals@[i] != vals@[j],
    ensures
        r.wf(),
        r.names_view() == seq![needle_of(variable)].add(features.names_view()),
        r.spec_width() == features.spec_width() + 1,
        r.rows_view() == densified_feature_rows(vals@, features.rows_view()),
{
    let ghost frows = features.rows_view();
    let mut names: Vec<String> = Vec::new();
    names.push(variable.clone());
    let old_names = features.names();
    let mut q: usize = 0;
    let w = old_names.len();
    while q < w
        invariant
            q <= w,
            w == old_names@.len(),
            old_names@.map_values(|s: String| s@) == features.names_view(),
            names@.len() == q + 1,
            names@[0]@ == variable@,
            forall|k: int| 1 <= k < names@.len() ==> (#[trigger] names@[k])@
                == features.names_view()[k - 1],
        decreases w - q,
    {
        proof {
            assert(features.names_view()[q as int] == old_names@[q as int]@);
        }
        names.push(old_names[q].clone());
        q += 1;
    }
    proof {
        assert forall|k: int| 0 <= k < names@.len() implies names@.map_values(|s: String| s@)[k]
            == seq![needle_of(variable)].add(features.names_view())[k] by {
            assert(names@.map_values(|s: String| s@)[k] == names@[k]@);
        }
        assert(names@.map_values(|s: String| s@) =~= seq![needle_of(variable)].add(
            features.names_view(),
        ));
    }
    let mut rows: Vec<Vec<i32>> = Vec::new();
    let nv = vals.len();
    let nf = features.count();
    let mut v: usize = 0;
    proof {
        assert(rows@.map_values(|r2: Vec<i32>| r2@) =~= densified_feature_rows(
            vals@.take(0),
            frows,
        ));
    }
    while v < nv
        invariant
            v <= nv,
            nv == vals@.len(),
            nf == frows.len(),
            frows == features.rows_view(),
            features.wf(),
            rows@.map_values(|r2: Vec<i32>| r2@) == densified_feature_rows(
                vals@.take(v as int),
                frows,
            ),
        decreases nv - v,
    {
        let val = vals[v];
        let ghost cl = |r2: Seq<i32>| seq![vals@[v as int]].add(r2);
        let mut f: usize = 0;
        proof {
            assert(frows.take(0).map_values(cl) =~= Seq::<Seq<i32>>::empty());
            assert(rows@.map_values(|r2: Vec<i32>| r2@) + Seq::<Seq<i32>>::empty()
                =~= rows@.map_values(|r2: Vec<i32>| r2@));
        }
        while f < nf
            invariant
                f <= nf,
                v < nv,
                nv == vals@.len(),
                nf == frows.len(),
                frows == features.rows_view(),
                features.wf(),
                val == vals@[v as int],
                cl == (|r2: Seq<i32>| seq![vals@[v as int]].add(r2)),
                rows@.map_values(|r2: Vec<i32>| r2@) == densified_feature_rows(
                    vals@.take(v as int),
                    frows,
                ) + frows.take(f as int).map_values(cl),
            decreases nf - f,
        {
            let ghost before = rows@.map_values(|r2: Vec<i32>| r2@);
            let frow = features.row(f);
            let mut row: Vec<i32> = Vec::new();
            row.push(val);
            let mut q2: usize = 0;
            let fw = frow.len();
            while q2 < fw
                invariant
                    q2 <= fw,
                    fw == frow@.len(),
                    val == vals@[v as int],
                    row@ == seq![vals@[v as int]] + frow@.take(q2 as int),
                decreases fw - q2,
            {
                row.push(frow[q2]);
                proof {
                    assert((seq![vals@[v as int]] + frow@.take(q2 as int)).push(frow@[q2 as int])
                        =~= seq![vals@[v as int]] + frow@.take(q2 + 1));
                }
                q2 += 1;
            }
            let ghost rv = row@;
            rows.push(row);
            proof {
                assert(frow@.take(fw as int) =~= frow@);
                assert(rv =~= cl(frows[f as int]));
                assert(rows@.map_values(|r2: Vec<i32>| r2@) =~= before.push(rv));
                assert(frows.take(f + 1).map_values(cl) =~= frows.take(f as int).map_values(
                    cl,
                ).push(cl(frows[f as int])));
                assert(before.push(rv) =~= densified_feature_rows(vals@.take(v as int), frows)
                    + frows.take(f + 1).map_values(cl));
            }
            f += 1;
        }
        proof {
            assert(vals@.take(v + 1).drop_last() =~= vals@.take(v as int));
            assert(vals@.take(v + 1).last() == vals@[v as int]);
            assert(densified_feature_rows(vals@.take(v + 1), frows) == densified_feature_rows(
                vals@.take(v as int),
                frows,
            ) + frows.map_values(cl));
            assert(frows.take(nf as int) =~= frows);
        }
        v += 1;
    }
    proof {
        assert(vals@.take(nv as int) =~= vals@);
        lemma_densified_feature_rows_shape(
            vals@,
            frows,
            features.spec_width() as int,
        );
        let rview = rows@.map_values(|r2: Vec<i32>| r2@);
        assert(names@.len() == features.spec_width() + 1);
        assert forall|i: int| 0 <= i < rows@.len() implies (#[trigger] rows@[i])@.len()
            == names@.len() by {
            assert(rview[i] == rows@[i]@);
        }
        assert forall|i: int, j: int| 0 <= i < j < rows@.len() implies rows@[i]@
            != rows@[j]@ by {
            assert(rview[i] == rows@[i]@ && rview[j] == rows@[j]@);
        }
    }
    Labels::from_parts(names, rows)
}

/// The character content of a name.
pub open spec fn needle_of(s: &String) -> Seq<char> {
    s@
}

} // verus!

verus! {

/// A dense descriptor: one value per environment and feature, with the
/// labels of both axes, and optionally the gradients of the values with
/// respect to one atomic position per gradient row.
#[derive(Debug, PartialEq)]
pub struct Descriptor {
    /// One entry per environment and feature, as binary64 bit patterns.
    pub values: DenseTensor,
    /// Labels of the value rows.
    pub environments: Labels,
    /// Labels of the value columns.
    pub features: Labels,
    /// Gradients of the values with respect to one atomic position per row.
    pub gradients: Option<DenseTensor>,
    /// Labels of the gradient rows.
    pub gradients_indexes: Option<Labels>,
}

impl Descriptor {
    /// Labels are well-formed and the tensors have the shapes the labels
    /// dictate; gradients come with their labels or not at all.
    pub open spec fn wf(&self) -> bool {
        &&& self.environments.wf()
        &&& self.features.wf()
        &&& self.values.wf()
        &&& self.values.spec_shape().len() == 2
        &&& self.values.spec_shape()[0] == self.environments.rows_view().len()
        &&& self.values.spec_shape()[1] == self.features.rows_view().len()
        &&& (match (self.gradients, self.gradients_indexes) {
            (Some(g), Some(gi)) => gi.wf() && g.wf() && g.spec_shape().len() == 2
                && g.spec_shape()[0] == gi.rows_view().len() && g.spec_shape()[1]
                == self.features.rows_view().len(),
            (None, None) => true,
            _ => false,
        })
    }

    /// An empty descriptor: no environments, no features (neither rows nor
    /// columns of either), no gradients.
    pub fn new() -> (d: Descriptor)
        ensures
            d.wf(),
            d.environments.rows_view().len() == 0,
            d.environments.names_view().len() == 0,
            d.features.rows_view().len() == 0,
            d.features.names_view().len() == 0,
            d.gradients is None,
            d.gradients_indexes is None,
    {
        let environments = Labels::from_parts(Vec::new(), Vec::new());
        let features = Labels::from_parts(Vec::new(), Vec::new());
        let values = empty_2d();
        Descriptor { values, environments, features, gradients: None, gradients_indexes: None }
    }

    /// Set the environment and feature labels, resize the values (keeping
    /// the flat buffer where it overlaps, zero beyond) and drop any
    /// gradients. An `Internal` error, leaving everything unchanged,
    /// exactly when the new entry count overflows the address space.
    pub fn prepare(&mut self, environments: Labels, features: Labels) -> (r: Result<(), Error>)
        requires
            old(self).wf(),
            environments.wf(),
            features.wf(),
        ensures
            r is Err ==> *final(self) == *old(self),
            r matches Err(e) ==> (e matches Error::Internal(_)),
            r is Ok <==> environments.rows_view().len() * features.rows_view().len()
                <= usize::MAX,
            r is Ok ==> final(self).wf() && final(self).environments == environments
                && final(self).features == features && final(self).gradients is None
                && final(self).gradients_indexes is None && forall|i: int|
                0 <= i < final(self).values.spec_data().len()
                    ==> #[trigger] final(self).values.spec_data()[i] == (if i < old(
                    self,
                ).values.spec_data().len() {
                    old(self).values.spec_data()[i]
                } else {
                    0u64
                }),
    {
        let ne = environments.count();
        let nf = features.count();
        let mut shape: Vec<usize> = Vec::new();
        shape.push(ne);
        shape.push(nf);
        proof {
            assert(shape@ =~= seq![ne, nf]);
            crate::tensor::lemma_shape2_fits(ne, nf);
        }
        let ok = self.values.resize(shape);
        if !ok {
            return Err(Error::Internal("tensor allocation overflowed".to_owned()));
        }
        self.environments = environments;
        self.features = features;
        self.gradients = None;
        self.gradients_indexes = None;
        Ok(())
    }

    /// Like [`Descriptor::prepare`], but also install gradient labels and a
    /// matching gradient tensor: resized (flat buffer kept, zero beyond)
    /// when one was there, fresh zeros otherwise. The last gradient column
    /// must be the spatial direction. An `Internal` error, leaving
    /// everything unchanged, exactly when an entry count overflows the
    /// address space.
    pub fn prepare_gradients(
        &mut self,
        environments: Labels,
        gradients: Labels,
        features: Labels,
    ) -> (r: Result<(), Error>)
        requires
            old(self).wf(),
            environments.wf(),
            features.wf(),
            gradients.wf(),
            gradients.names_view().len() > 0,
            gradients.names_view().last() == "spatial"@,
        ensures
            r is Err ==> *final(self) == *old(self),
            r matches Err(e) ==> (e matches Error::Internal(_)),
            r is Ok <==> (environments.rows_view().len() * features.rows_view().len()
                <= usize::MAX && gradients.rows_view().len() * features.rows_view().len()
                <= usize::MAX),
            r is Ok ==> final(self).wf() && final(self).environments == environments
                && final(self).features == features && final(self).gradients_indexes == Some(
                gradients,
            ) && final(self).gradients is Some,
            r is Ok ==> forall|i: int|
                0 <= i < final(self).values.spec_data().len()
                    ==> #[trigger] final(self).values.spec_data()[i] == (if i < old(
                    self,
                ).values.spec_data().len() {
                    old(self).values.spec_data()[i]
                } else {
                    0u64
                }),
            r is Ok ==> (match old(self).gradients {
                Some(a) => forall|i: int|
                    0 <= i < final(self).gradients.unwrap().spec_data().len()
                        ==> #[trigger] final(self).gradients.unwrap().spec_data()[i] == (if i
                        < a.spec_data().len() {
                        a.spec_data()[i]
                    } else {
                        0u64
                    }),
                None => forall|i: int|
                    0 <= i < final(self).gradients.unwrap().spec_data().len()
                        ==> #[trigger] final(self).gradients.unwrap().spec_data()[i] == 0u64,
            }),
    {
        let ne = environments.count();
        let nf = features.count();
        let ng = gradients.count();
        if !crate::tensor::shape2_fits(ne, nf) {
            return Err(Error::Internal("tensor allocation overflowed".to_owned()));
        }
        if !crate::tensor::shape2_fits(ng, nf) {
            return Err(Error::Internal("tensor allocation overflowed".to_owned()));
        }
        let mut shape: Vec<usize> = Vec::new();
        shape.push(ne);
        shape.push(nf);
        let mut gshape: Vec<usize> = Vec::new();
        gshape.push(ng);
        gshape.push(nf);
        proof {
            assert(shape@ =~= seq![ne, nf]);
            assert(gshape@ =~= seq![ng, nf]);
            crate::tensor::lemma_shape2_fits(ne, nf);
            crate::tensor::lemma_shape2_fits(ng, nf);
        }
        let ok = self.values.resize(shape);
        if !ok {
            return Err(Error::Internal("tensor allocation overflowed".to_owned()));
        }
        let has_gradients = self.gradients.is_some();
        if has_gradients {
            let resized = match &mut self.gradients {
                Some(array) => array.resize(gshape),
                None => true,
            };
            if !resized {
                return Err(Error::Internal("tensor allocation overflowed".to_owned()));
            }
        } else {
            let array = match DenseTensor::zeros(gshape) {
                Some(a) => a,
                None => {
                    return Err(Error::Internal("tensor allocation overflowed".to_owned()));
                },
            };
            self.gradients = Some(array);
        }
        self.environments = environments;
        self.features = features;
        self.gradients_indexes = Some(gradients);
        Ok(())
    }

    /// Move `variable` from the environments into the features: group the
    /// environments by their remaining columns, widen the features by one
    /// block per value the variable took (in first-occurrence order), and
    /// scatter values and gradients into their blocks; entries of blocks an
    /// environment never took are zero. An error leaves the descriptor
    /// untouched: `Internal` on address-space overflow, or when the
    /// gradient rows took the variable to other values than the
    /// environments did.
    pub fn densify(&mut self, variable: &str) -> (r: Result<(), Error>)
        requires
            old(self).wf(),
            exists|i: int|
                0 <= i < old(self).environments.names_view().len()
                    && #[trigger] old(self).environments.names_view()[i] == variable@,
            old(self).gradients_indexes matches Some(gi) ==> exists|i: int|
                0 <= i < gi.names_view().len() && #[trigger] gi.names_view()[i] == variable@,
        ensures
            r is Err ==> *final(self) == *old(self),
            r matches Err(e) ==> (e matches Error::Internal(_)),
            r is Ok ==> final(self).wf() && ({
                let vi = first_name_index(old(self).environments.names_view(), variable@);
                let rows = old(self).environments.rows_view();
                let vals = unwrap_singletons(dedup_rows(column_rows(rows, vi)));
                let nf = old(self).features.rows_view().len() as int;
                &&& final(self).environments.names_view() == old(
                    self,
                ).environments.names_view().remove(vi)
                &&& final(self).environments.rows_view() == dedup_rows(cleaned_rows(rows, vi))
                &&& final(self).features.names_view() == seq![variable@].add(
                    old(self).features.names_view(),
                )
                &&& final(self).features.rows_view() == densified_feature_rows(
                    vals,
                    old(self).features.rows_view(),
                )
                &&& forall|o: int, f: int|
                    0 <= o < rows.len() && 0 <= f < nf ==> #[trigger] final(self).values.at(
                        idx2(
                            row_index_of(final(self).environments.rows_view(), rows[o].remove(vi)),
                            val_index_of(vals, rows[o][vi]) * nf + f,
                        ),
                    ) == old(self).values.at(idx2(o, f))
                &&& (final(self).gradients_indexes matches Some(gi) ==> gi.rows_view()
                    == dedup_rows(
                    cleaned_rows(
                        old(self).gradients_indexes.unwrap().rows_view(),
                        first_name_index(
                            old(self).gradients_indexes.unwrap().names_view(),
                            variable@,
                        ),
                    ),
                ))
                &&& forall|e: int, j: int|
                    0 <= e < final(self).environments.rows_view().len() && 0 <= j < vals.len() * nf
                        && !cell_covered(
                        rows,
                        vi,
                        final(self).environments.rows_view(),
                        vals,
                        nf,
                        e,
                        j,
                    ) ==> #[trigger] final(self).values.at(idx2(e, j)) == 0u64
                &&& (old(self).gradients is Some ==> final(self).gradients is Some
                    && final(self).gradients_indexes is Some && ({
                    let gi = old(self).gradients_indexes.unwrap();
                    let grows = gi.rows_view();
                    let gvi = first_name_index(gi.names_view(), variable@);
                    let gold = old(self).gradients.unwrap();
                    let gnew = final(self).gradients.unwrap();
                    let ginew_rows = final(self).gradients_indexes.unwrap().rows_view();
                    &&& forall|og: int, f: int|
                        0 <= og < grows.len() && 0 <= f < nf ==> #[trigger] gnew.at(
                            idx2(
                                row_index_of(ginew_rows, grows[og].remove(gvi)),
                                val_index_of(vals, grows[og][gvi]) * nf + f,
                            ),
                        ) == gold.at(idx2(og, f))
                    &&& forall|e: int, j: int|
                        0 <= e < ginew_rows.len() && 0 <= j < vals.len() * nf && !cell_covered(
                            grows,
                            gvi,
                            ginew_rows,
                            vals,
                            nf,
                            e,
                            j,
                        ) ==> #[trigger] gnew.at(idx2(e, j)) == 0u64
                }))
            }),
            densify_succeeds(*old(self), variable@) ==> r is Ok,
    {
        let ghost oldself = *old(self);
        let names = self.environments.names();
        let needle = variable.to_owned();
        let variable_i = match find_name(names, &needle) {
            Some(i) => i,
            None => {
                proof {
                    let i = choose|i: int|
                        0 <= i < oldself.environments.names_view().len()
                            && oldself.environments.names_view()[i] == variable@;
                    assert(names@[i]@ == variable@);
                }
                vstd::pervasive::unreached()
            },
        };
        proof {
            lemma_first_name_index(
                self.environments.names_view(),
                variable@,
                variable_i as int,
            );
        }
        let ghost vi = variable_i as int;
        let ghost rows = self.environments.rows_view();
        let env_res = remove_from_indexes(&self.environments, variable_i);
        let ghost vals = unwrap_singletons(dedup_rows(column_rows(rows, vi)));
        proof {
            lemma_dedup_rows(column_rows(rows, vi));
            assert forall|i: int, j: int| 0 <= i < j < env_res.new_features@.len() implies
                env_res.new_features@[i] != env_res.new_features@[j] by {
                let m = env_res.new_features@.map_values(|x: i32| seq![x]);
                assert(m[i] == seq![env_res.new_features@[i]] && m[j] == seq![
                    env_res.new_features@[j],
                ]);
                if env_res.new_features@[i] == env_res.new_features@[j] {
                    assert(m[i] == m[j]);
                }
            }
            assert(env_res.new_features@ =~= vals) by {
                let m = env_res.new_features@.map_values(|x: i32| seq![x]);
                assert(forall|i: int|
                    0 <= i < env_res.new_features@.len() ==> (#[trigger] vals[i]) == m[i][0]
                        && m[i] == seq![env_res.new_features@[i]]);
            }
            lemma_mapping_injective(
                env_res,
                oldself.environments.names_view(),
                rows,
                vi,
                oldself.environments.spec_width() as int,
            );
        }
        let nf = self.features.count();
        let n_new = env_res.indexes.count();
        let n_vals = env_res.new_features.len();
        proof {
            assert(self.values == oldself.values);
            assert(oldself.values.spec_shape()[1] == nf as int);
            assert(first_name_index(oldself.environments.names_view(), variable@) == vi);
            assert(vals.len() == n_vals as int);
            assert(dedup_rows(cleaned_rows(rows, vi)).len() == n_new as int);
        }
        let new_values = match scatter_rows(&self.values, &env_res.mapping, n_new, n_vals) {
            Some(t) => t,
            None => {
                proof {
                    assert(!densify_succeeds(oldself, variable@));
                }
                return Err(Error::Internal("tensor allocation overflowed".to_owned()));
            },
        };
        let has_gradients = self.gradients.is_some();
        let mut new_gradients: Option<DenseTensor> = None;
        let mut new_gradients_indexes: Option<Labels> = None;
        let ghost mut gscat: DenseTensor = new_values;
        let ghost mut goldt: DenseTensor = new_values;
        let ghost mut ginew: Labels = env_res.indexes;
        let ghost mut gmap: Seq<(usize, usize)> = Seq::empty();
        let ghost mut ggvi: int = 0;
        if has_gradients {
            let gi = match &self.gradients_indexes {
                Some(gi) => gi,
                None => {
                    vstd::pervasive::unreached()
                },
            };
            let gnames = gi.names();
            let gvariable_i = match find_name(gnames, &needle) {
                Some(i) => i,
                None => {
                    proof {
                        let gi_labels = oldself.gradients_indexes.unwrap();
                        let i = choose|i: int|
                            0 <= i < gi_labels.names_view().len() && gi_labels.names_view()[i]
                                == variable@;
                        assert(gnames@[i]@ == variable@);
                    }
                    vstd::pervasive::unreached()
                },
            };
            proof {
                lemma_first_name_index(
                    oldself.gradients_indexes.unwrap().names_view(),
                    variable@,
                    gvariable_i as int,
                );
            }
            let gres = remove_from_indexes(gi, gvariable_i);
            let ghost grows = oldself.gradients_indexes.unwrap().rows_view();
            proof {
                ggvi = gvariable_i as int;
                assert(oldself.gradients is Some);
                assert(oldself.gradients_indexes is Some);
                assert(first_name_index(
                    oldself.gradients_indexes.unwrap().names_view(),
                    variable@,
                ) == ggvi);
            }
            // the gradient rows must take the variable to the same values,
            // in the same order, as the environments
            if gres.new_features.len() != env_res.new_features.len() {
                proof {
                    assert(!densify_succeeds(oldself, variable@)) by {
                        if densify_succeeds(oldself, variable@) {
                            assert(oldself.gradients is Some);
                            assert(oldself.gradients_indexes is Some);
                            assert(grows == oldself.gradients_indexes.unwrap().rows_view());
                            assert(first_name_index(
                                oldself.gradients_indexes.unwrap().names_view(),
                                variable@,
                            ) == ggvi);
                            assert(dedup_rows(column_rows(grows, ggvi)) == dedup_rows(
                                column_rows(rows, vi),
                            ));
                            assert(gres.new_features@.map_values(|x: i32| seq![x]).len()
                                == env_res.new_features@.map_values(|x: i32| seq![x]).len());
                        }
                    }
                }
                return Err(
                    Error::Internal(
                        "the gradient rows disagree with the environments on the densified variable".to_owned(),
                    ),
                );
            }
            let mut q: usize = 0;
            let nq = env_res.new_features.len();
            while q < nq
                invariant
                    *self == *old(self),
                    q <= nq,
                    nq == env_res.new_features@.len(),
                    nq == gres.new_features@.len(),
                    oldself == *old(self),
                    oldself.gradients is Some,
                    oldself.gradients_indexes is Some,
                    rows == oldself.environments.rows_view(),
                    vi == first_name_index(oldself.environments.names_view(), variable@),
                    grows == oldself.gradients_indexes.unwrap().rows_view(),
                    ggvi == first_name_index(
                        oldself.gradients_indexes.unwrap().names_view(),
                        variable@,
                    ),
                    removed_ok(env_res, oldself.environments.names_view(), rows, vi),
                    removed_ok(
                        gres,
                        oldself.gradients_indexes.unwrap().names_view(),
                        grows,
                        ggvi,
                    ),
                    forall|k: int|
                        0 <= k < q ==> #[trigger] gres.new_features@[k]
                            == env_res.new_features@[k],
                decreases nq - q,
            {
                if gres.new_features[q] != env_res.new_features[q] {
                    proof {
                        assert(!densify_succeeds(oldself, variable@)) by {
                            if densify_succeeds(oldself, variable@) {
                                assert(oldself.gradients is Some);
                                assert(oldself.gradients_indexes is Some);
                                assert(grows == oldself.gradients_indexes.unwrap().rows_view());
                                assert(first_name_index(
                                    oldself.gradients_indexes.unwrap().names_view(),
                                    variable@,
                                ) == ggvi);
                                assert(dedup_rows(column_rows(grows, ggvi)) == dedup_rows(
                                    column_rows(rows, vi),
                                ));
                                assert(gres.new_features@.map_values(|x: i32| seq![x])[q as int]
                                    == env_res.new_features@.map_values(|x: i32| seq![x])[q as int]);
                                assert(seq![gres.new_features@[q as int]] == seq![
                                    env_res.new_features@[q as int],
                                ]);
                                assert(seq![gres.new_features@[q as int]][0] == seq![
                                    env_res.new_features@[q as int],
                                ][0]);
                            }
                        }
                    }
                    return Err(
                        Error::Internal(
                            "the gradient rows disagree with the environments on the densified variable".to_owned(),
                        ),
                    );
                }
                q += 1;
            }
            proof {
                assert(gres.new_features@ =~= env_res.new_features@);
            }
            proof {
                let gi_labels = oldself.gradients_indexes.unwrap();
                let grows = gi_labels.rows_view();
                let gvi = gvariable_i as int;
                lemma_mapping_injective(
                    gres,
                    gi_labels.names_view(),
                    grows,
                    gvi,
                    gi_labels.spec_width() as int,
                );
            }
            let garray = match &self.gradients {
                Some(a) => a,
                None => {
                    vstd::pervasive::unreached()
                },
            };
            proof {
                assert(*garray == oldself.gradients.unwrap());
                assert(garray.spec_shape()[1] == nf as int);
                assert(dedup_rows(cleaned_rows(grows, ggvi)).len()
                    == gres.indexes.rows_view().len());
            }
            let g_new_count = gres.indexes.count();
            let scattered = match scatter_rows(garray, &gres.mapping, g_new_count, n_vals) {
                Some(t) => t,
                None => {
                    proof {
                        assert(!densify_succeeds(oldself, variable@));
                    }
                    return Err(Error::Internal("tensor allocation overflowed".to_owned()));
                },
            };
            proof {
                gscat = scattered;
                goldt = *garray;
                ginew = gres.indexes;
                gmap = gres.mapping@;
                // restate the scatter facts over the captured names, to
                // carry them past this block
                assert(gmap.len() == grows.len());
                assert(ginew.wf());
                assert(ginew.rows_view() == dedup_rows(cleaned_rows(grows, ggvi)));
                assert(forall|og: int|
                    0 <= og < grows.len() ==> ((#[trigger] gmap[og]).0 as int)
                        < ginew.rows_view().len() && ginew.rows_view()[gmap[og].0 as int]
                        == grows[og].remove(ggvi) && (gmap[og].1 as int) < vals.len()
                        && vals[gmap[og].1 as int] == grows[og][ggvi]);
                assert(forall|og: int, f: int|
                    0 <= og < gmap.len() && 0 <= f < (nf as int) ==> #[trigger] gscat.at(
                        idx2((gmap[og].0 as int), (gmap[og].1 as int) * (nf as int) + f),
                    ) == goldt.at(idx2(og, f)));
                assert(forall|e: int, j: int|
                    0 <= e < ginew.rows_view().len() && 0 <= j < vals.len() * (nf as int) && !(
                    exists|o: int|
                        0 <= o < gmap.len() && (#[trigger] gmap[o]).0 == e && gmap[o].1 == j / (
                        nf as int)) ==> #[trigger] gscat.at(idx2(e, j)) == 0u64);
            }
            new_gradients = Some(scattered);
            new_gradients_indexes = Some(gres.indexes);
        }
        let new_features_labels = densified_features(&needle, &env_res.new_features, &self.features);
        proof {
            lemma_densified_feature_rows_shape(
                vals,
                oldself.features.rows_view(),
                oldself.features.spec_width() as int,
            );
            assert((n_vals * nf) as int == vals.len() * oldself.features.rows_view().len());
        }
        self.values = new_values;
        self.environments = env_res.indexes;
        self.features = new_features_labels;
        self.gradients = new_gradients;
        self.gradients_indexes = new_gradients_indexes;
        proof {
            let fin = *self;
            assert(needle@ == variable@);
            assert(fin.environments.names_view() == oldself.environments.names_view().remove(vi));
            assert(fin.environments.rows_view() == dedup_rows(cleaned_rows(rows, vi)));
            assert(fin.features.names_view() == seq![variable@].add(
                oldself.features.names_view(),
            )) by {
                assert(needle_of(&needle) == variable@);
                assert(seq![needle_of(&needle)].add(oldself.features.names_view()) =~= seq![
                    variable@,
                ].add(oldself.features.names_view()));
            }
            assert(fin.features.rows_view() == densified_feature_rows(
                vals,
                oldself.features.rows_view(),
            ));
            assert(fin.wf()) by {
                assert(fin.values.spec_shape()[0] == fin.environments.rows_view().len());
                assert(fin.values.spec_shape()[1] == n_vals * (nf as int));
                assert(fin.features.rows_view().len() == vals.len()
                    * oldself.features.rows_view().len());
                assert(fin.values.spec_shape()[1] == fin.features.rows_view().len());
                match (fin.gradients, fin.gradients_indexes) {
                    (Some(g), Some(gi2)) => {
                        assert(g.spec_shape()[0] == gi2.rows_view().len());
                        assert(g.spec_shape()[1] == fin.features.rows_view().len());
                    },
                    (None, None) => {},
                    _ => {
                        assert(false);
                    },
                }
            }
            assert forall|o: int, f: int|
                0 <= o < rows.len() && 0 <= f < (nf as int) implies #[trigger] fin.values.at(
                    idx2(
                        row_index_of(fin.environments.rows_view(), rows[o].remove(vi)),
                        val_index_of(vals, rows[o][vi]) * (nf as int) + f,
                    ),
                ) == oldself.values.at(idx2(o, f)) by {
                let e = env_res.mapping@[o].0 as int;
                let b = env_res.mapping@[o].1 as int;
                assert(fin.environments.rows_view()[e] == rows[o].remove(vi));
                assert(row_index_of(fin.environments.rows_view(), rows[o].remove(vi)) == e) by {
                    let ri = row_index_of(fin.environments.rows_view(), rows[o].remove(vi));
                    assert(0 <= ri < fin.environments.rows_view().len()
                        && fin.environments.rows_view()[ri] == rows[o].remove(vi));
                    if ri != e {
                        assert(fin.environments.wf());
                    }
                }
                assert(vals[b] == rows[o][vi]);
                assert(val_index_of(vals, rows[o][vi]) == b) by {
                    let bi = val_index_of(vals, rows[o][vi]);
                    assert(0 <= bi < vals.len() && vals[bi] == rows[o][vi]);
                }
            }
            // untouched values cells are zero
            assert forall|e: int, j: int|
                0 <= e < fin.environments.rows_view().len() && 0 <= j < vals.len() * (nf as int)
                    && !cell_covered(
                    rows,
                    vi,
                    fin.environments.rows_view(),
                    vals,
                    nf as int,
                    e,
                    j,
                ) implies #[trigger] fin.values.at(idx2(e, j)) == 0u64 by {
                assert(!(exists|o: int|
                    0 <= o < env_res.mapping@.len() && (#[trigger] env_res.mapping@[o]).0 == e
                        && env_res.mapping@[o].1 == j / (nf as int))) by {
                    if exists|o: int|
                        0 <= o < env_res.mapping@.len() && (#[trigger] env_res.mapping@[o]).0 == e
                            && env_res.mapping@[o].1 == j / (nf as int) {
                        let o = choose|o: int|
                            0 <= o < env_res.mapping@.len() && (#[trigger] env_res.mapping@[o]).0
                                == e && env_res.mapping@[o].1 == j / (nf as int);
                        assert(fin.environments.rows_view()[e] == rows[o].remove(vi));
                        assert(vals[j / (nf as int)] == rows[o][vi]);
                        assert(cell_covered(
                            rows,
                            vi,
                            fin.environments.rows_view(),
                            vals,
                            nf as int,
                            e,
                            j,
                        ));
                    }
                }
            }
            // the gradients were scattered the same way
            if oldself.gradients is Some {
                let gi_labels = oldself.gradients_indexes.unwrap();
                let grows2 = gi_labels.rows_view();
                assert(fin.gradients == Some(gscat));
                assert(fin.gradients_indexes == Some(ginew));
                assert(first_name_index(gi_labels.names_view(), variable@) == ggvi);
                assert forall|og: int, f: int|
                    0 <= og < grows2.len() && 0 <= f < (nf as int) implies #[trigger] gscat.at(
                        idx2(
                            row_index_of(ginew.rows_view(), grows2[og].remove(ggvi)),
                            val_index_of(vals, grows2[og][ggvi]) * (nf as int) + f,
                        ),
                    ) == oldself.gradients.unwrap().at(idx2(og, f)) by {
                    let e = gmap[og].0 as int;
                    let b = gmap[og].1 as int;
                    assert(ginew.rows_view()[e] == grows2[og].remove(ggvi));
                    assert(row_index_of(ginew.rows_view(), grows2[og].remove(ggvi)) == e) by {
                        let ri = row_index_of(ginew.rows_view(), grows2[og].remove(ggvi));
                        assert(0 <= ri < ginew.rows_view().len() && ginew.rows_view()[ri]
                            == grows2[og].remove(ggvi));
                        if ri != e {
                            assert(ginew.wf());
                        }
                    }
                    assert(vals[b] == grows2[og][ggvi]);
                    assert(val_index_of(vals, grows2[og][ggvi]) == b) by {
                        let bi = val_index_of(vals, grows2[og][ggvi]);
                        assert(0 <= bi < vals.len() && vals[bi] == grows2[og][ggvi]);
                    }
                    assert(gscat.at(idx2((gmap[og].0 as int), (gmap[og].1 as int) * (nf as int)
                        + f)) == goldt.at(idx2(og, f)));
                }
                assert forall|e: int, j: int|
                    0 <= e < ginew.rows_view().len() && 0 <= j < vals.len() * (nf as int)
                        && !cell_covered(
                        grows2,
                        ggvi,
                        ginew.rows_view(),
                        vals,
                        nf as int,
                        e,
                        j,
                    ) implies #[trigger] gscat.at(idx2(e, j)) == 0u64 by {
                    assert(!(exists|o: int|
                        0 <= o < gmap.len() && (#[trigger] gmap[o]).0 == e && gmap[o].1 == j / (
                        nf as int))) by {
                        if exists|o: int|
                            0 <= o < gmap.len() && (#[trigger] gmap[o]).0 == e && gmap[o].1 == j
                                / (nf as int) {
                            let o = choose|o: int|
                                0 <= o < gmap.len() && (#[trigger] gmap[o]).0 == e && gmap[o].1
                                    == j / (nf as int);
                            assert(ginew.rows_view()[e] == grows2[o].remove(ggvi));
                            assert(vals[j / (nf as int)] == grows2[o][ggvi]);
                            assert(cell_covered(
                                grows2,
                                ggvi,
                                ginew.rows_view(),
                                vals,
                                nf as int,
                                e,
                                j,
                            ));
                        }
                    }
                }
            }
        }
        Ok(())
    }
}

impl Default for Descriptor {
    /// The empty descriptor.
    fn default() -> (d: Descriptor)
        ensures
            d.wf(),
            d.environments.rows_view().len() == 0,
            d.features.rows_view().len() == 0,
            d.gradients is None,
            d.gradients_indexes is None,
    {
        Descriptor::new()
    }
}

} // verus!
