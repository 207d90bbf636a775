//! An insertion-ordered set of label rows, backed by `indexmap`.
//!
//! Gradient builders must emit rows in the order the caller's samples
//! dictate while dropping repeats, so they collect rows in an
//! [`indexmap::IndexSet`], whose iteration order is its insertion order.
//! The set is reached through the contracts below; [`dedup_rows`] names
//! what a sequence of inserts leaves in it.

use vstd::prelude::*;

use indexmap::IndexSet;

verus! {

#[verifier::external_type_specification]
#[verifier::external_body]
#[verifier::reject_recursive_types(T)]
#[verifier::reject_recursive_types(S)]
pub struct ExIndexSet<T, S>(IndexSet<T, S>);

/// The rows an insertion-ordered set holds, in insertion order.
pub uninterp spec fn index_set_rows(
    s: IndexSet<Vec<i32>, std::collections::hash_map::RandomState>,
) -> Seq<Seq<i32>>;

/// Relies on `indexmap::IndexSet::new`: a new set is empty.
#[verifier::external_body]
pub(crate) fn index_set_new() -> (r: IndexSet<Vec<i32>, std::collections::hash_map::RandomState>)
    ensures
        index_set_rows(r) == Seq::<Seq<i32>>::empty(),
{
    IndexSet::new()
}

/// Relies on `indexmap::IndexSet::insert`: a row equal to one already
/// present is dropped, leaving the original and its insertion order in
/// place; otherwise the row is appended last in order.
#[verifier::external_body]
pub(crate) fn index_set_insert(
    s: &mut IndexSet<Vec<i32>, std::collections::hash_map::RandomState>,
    value: Vec<i32>,
) -> (r: bool)
    ensures
        r == !index_set_rows(*old(s)).contains(value@),
        index_set_rows(*final(s)) == (if index_set_rows(*old(s)).contains(value@) {
            index_set_rows(*old(s))
        } else {
            index_set_rows(*old(s)).push(value@)
        }),
{
    s.insert(value)
}

/// Relies on `IntoIterator for indexmap::IndexSet`: iteration hands the
/// rows out in order.
#[verifier::external_body]
pub(crate) fn index_set_into_rows(
    s: IndexSet<Vec<i32>, std::collections::hash_map::RandomState>,
) -> (r: Vec<Vec<i32>>)
    ensures
        r@.map_values(|v: Vec<i32>| v@) == index_set_rows(s),
{
    s.into_iter().collect()
}

/// Relies on `indexmap::IndexSet::get_index_of`: the insertion-order index
/// of a row equal to the given one, if the set holds one.
#[verifier::external_body]
pub(crate) fn index_set_position(
    s: &IndexSet<Vec<i32>, std::collections::hash_map::RandomState>,
    value: &Vec<i32>,
) -> (r: Option<usize>)
    ensures
        (match r {
            Some(i) => i < index_set_rows(*s).len() && index_set_rows(*s)[i as int] == value@,
            None => !index_set_rows(*s).contains(value@),
        }),
{
    s.get_index_of(value)
}

/// The rows of `s` with every repeat of an earlier row dropped, in first
/// appearance order: what a sequence of inserts leaves in an
/// insertion-ordered set.
pub open spec fn dedup_rows(s: Seq<Seq<i32>>) -> Seq<Seq<i32>>
    decreases s.len(),
{
    if s.len() == 0 {
        Seq::empty()
    } else {
        let prefix = dedup_rows(s.drop_last());
        if prefix.contains(s.last()) {
            prefix
        } else {
            prefix.push(s.last())
        }
    }
}

/// Deduplicated rows are pairwise distinct, and hold exactly the rows of
/// the source.
pub proof fn lemma_dedup_rows(s: Seq<Seq<i32>>)
    ensures
        forall|i: int, j: int|
            0 <= i < j < dedup_rows(s).len() ==> dedup_rows(s)[i] != dedup_rows(s)[j],
        forall|r: Seq<i32>| #[trigger] dedup_rows(s).contains(r) <==> s.contains(r),
    decreases s.len(),
{
    if s.len() > 0 {
        lemma_dedup_rows(s.drop_last());
        let prefix = dedup_rows(s.drop_last());
        let whole = dedup_rows(s);
        assert forall|i: int, j: int| 0 <= i < j < whole.len() implies whole[i] != whole[j] by {
            if j < prefix.len() {
                assert(whole[i] == prefix[i] && whole[j] == prefix[j]);
            } else {
                assert(whole[j] == s.last());
                assert(whole[i] == prefix[i]);
                assert(!prefix.contains(s.last()));
                assert(prefix.contains(prefix[i]));
            }
        }
        assert forall|r: Seq<i32>| #[trigger] whole.contains(r) implies s.contains(r) by {
            let k = choose|k: int| 0 <= k < whole.len() && whole[k] == r;
            if k < prefix.len() {
                assert(prefix.contains(r));
                assert(s.drop_last().contains(r));
                let m = choose|m: int| 0 <= m < s.drop_last().len() && s.drop_last()[m] == r;
                assert(s[m] == r);
            } else {
                assert(r == s.last());
                assert(s[s.len() - 1] == r);
            }
        }
        assert forall|r: Seq<i32>| s.contains(r) implies #[trigger] whole.contains(r) by {
            let m = choose|m: int| 0 <= m < s.len() && s[m] == r;
            if m < s.len() - 1 {
                assert(s.drop_last()[m] == r);
                assert(s.drop_last().contains(r));
                assert(prefix.contains(r));
                let k = choose|k: int| 0 <= k < prefix.len() && prefix[k] == r;
                assert(whole[k] == r);
            } else {
                if prefix.contains(s.last()) {
                    let k = choose|k: int| 0 <= k < prefix.len() && prefix[k] == s.last();
                    assert(whole[k] == r);
                } else {
                    assert(whole[whole.len() - 1] == r);
                }
            }
        }
    }
}

/// Each row expanded into three rows carrying spatial directions 0, 1, 2.
pub open spec fn expand3(rows: Seq<Seq<i32>>) -> Seq<Seq<i32>>
    decreases rows.len(),
{
    if rows.len() == 0 {
        Seq::empty()
    } else {
        expand3(rows.drop_last()) + seq![
            rows.last().push(0i32),
            rows.last().push(1i32),
            rows.last().push(2i32),
        ]
    }
}

/// Expanding distinct rows of one width gives distinct rows one wider.
pub proof fn lemma_expand3_shape(rows: Seq<Seq<i32>>, w: int)
    requires
        forall|i: int, j: int| 0 <= i < j < rows.len() ==> rows[i] != rows[j],
        forall|i: int| 0 <= i < rows.len() ==> (#[trigger] rows[i]).len() == w,
        w >= 0,
    ensures
        expand3(rows).len() == 3 * rows.len(),
        forall|i: int| 0 <= i < expand3(rows).len() ==> (#[trigger] expand3(rows)[i]).len() == w
            + 1,
        forall|i: int, j: int| 0 <= i < j < expand3(rows).len() ==> expand3(rows)[i] != expand3(
            rows,
        )[j],
        forall|i: int|
            0 <= i < expand3(rows).len() ==> (#[trigger] expand3(rows)[i]).drop_last() == rows[i
                / 3] && expand3(rows)[i][w] == (i % 3) as i32,
    decreases rows.len(),
{
    if rows.len() > 0 {
        let sub = rows.drop_last();
        lemma_expand3_shape(sub, w);
        let prefix = expand3(sub);
        let whole = expand3(rows);
        assert(whole.len() == 3 * rows.len());
        assert forall|i: int| 0 <= i < whole.len() implies (#[trigger] whole[i]).len() == w + 1
            && whole[i].drop_last() == rows[i / 3] && whole[i][w] == (i % 3) as i32 by {
            if i < prefix.len() {
                assert(whole[i] == prefix[i]);
                assert(sub[i / 3] == rows[i / 3]);
            } else {
                assert(whole[i] == rows.last().push(((i - prefix.len()) as i32)));
                assert(i / 3 == rows.len() - 1 && i % 3 == i - prefix.len()) by (nonlinear_arith)
                    requires
                        prefix.len() == 3 * (rows.len() - 1),
                        prefix.len() <= i < 3 * rows.len(),
                ;
                assert(rows.last().push((i % 3) as i32).drop_last() =~= rows.last());
            }
        }
        assert forall|i: int, j: int| 0 <= i < j < whole.len() implies whole[i] != whole[j] by {
            if whole[i] == whole[j] {
                assert(whole[i].drop_last() == whole[j].drop_last());
                assert(rows[i / 3] == rows[j / 3]);
                assert(i / 3 == j / 3) by {
                    if i / 3 < j / 3 {
                        assert(rows[i / 3] != rows[j / 3]);
                    }
                    assert(0 <= i / 3 <= j / 3 < rows.len()) by (nonlinear_arith)
                        requires
                            0 <= i < j < 3 * rows.len(),
                    ;
                }
                assert(whole[i][w] != whole[j][w]) by {
                    assert(i % 3 != j % 3) by (nonlinear_arith)
                        requires
                            0 <= i < j,
                            i / 3 == j / 3,
                    ;
                }
            }
        }
    }
}

/// Append the three spatial directions to every row.
pub(crate) fn append_spatial(rows: Vec<Vec<i32>>) -> (r: Vec<Vec<i32>>)
    ensures
        r@.map_values(|v: Vec<i32>| v@) == expand3(rows@.map_values(|v: Vec<i32>| v@)),
{
    let ghost rview = rows@.map_values(|v: Vec<i32>| v@);
    let mut out: Vec<Vec<i32>> = Vec::new();
    let n = rows.len();
    let mut i: usize = 0;
    proof {
        assert(out@.map_values(|v: Vec<i32>| v@) =~= expand3(rview.take(0)));
    }
    while i < n
        invariant
            i <= n,
            n == rows@.len(),
            rview == rows@.map_values(|v: Vec<i32>| v@),
            out@.map_values(|v: Vec<i32>| v@) == expand3(rview.take(i as int)),
        decreases n - i,
    {
        let ghost before = out@.map_values(|v: Vec<i32>| v@);
        let base = &rows[i];
        let mut r0 = crate::labels::copy_row(base);
        r0.push(0);
        let mut r1 = crate::labels::copy_row(base);
        r1.push(1);
        let mut r2 = crate::labels::copy_row(base);
        r2.push(2);
        let ghost v0 = r0@;
        let ghost v1 = r1@;
        let ghost v2 = r2@;
        out.push(r0);
        out.push(r1);
        out.push(r2);
        proof {
            assert(rview[i as int] == rows@[i as int]@);
            assert(v0 == rview[i as int].push(0i32));
            assert(v1 == rview[i as int].push(1i32));
            assert(v2 == rview[i as int].push(2i32));
            assert(rview.take(i + 1).drop_last() =~= rview.take(i as int));
            assert(rview.take(i + 1).last() == rview[i as int]);
            assert(out@.map_values(|v: Vec<i32>| v@) =~= before + seq![v0, v1, v2]);
            assert(expand3(rview.take(i + 1)) == expand3(rview.take(i as int)) + seq![
                rview[i as int].push(0i32),
                rview[i as int].push(1i32),
                rview[i as int].push(2i32),
            ]);
        }
        i += 1;
    }
    proof {
        assert(rview.take(n as int) =~= rview);
    }
    out
}

} // verus!
