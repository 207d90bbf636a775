//! Ordered, duplicate-free sequences of fixed-width integer rows with named
//! columns.
//!
//! `Labels` name the axes of every tensor the library produces: each axis
//! entry is one row, and `position` recovers the insertion index of a row.
//! Rows are never reordered; equality is structural over the column names and
//! the row sequence.

use vstd::prelude::*;

use crate::indexset::{index_set_insert, index_set_new, index_set_position, index_set_rows};
use crate::Error;

verus! {

/// Strict lexicographic order on label rows. A strict prefix sorts before any
/// of its extensions.
pub open spec fn lex_lt(a: Seq<i32>, b: Seq<i32>) -> bool
    decreases a.len(),
{
    if b.len() == 0 {
        false
    } else if a.len() == 0 {
        true
    } else if a[0] != b[0] {
        a[0] < b[0]
    } else {
        lex_lt(a.skip(1), b.skip(1))
    }
}

/// A sequence of rows in strictly ascending lexicographic order.
pub open spec fn sorted_strict(rows: Seq<Seq<i32>>) -> bool {
    forall|i: int, j: int| 0 <= i < j < rows.len() ==> lex_lt(rows[i], rows[j])
}

/// No row sorts before itself.
pub proof fn lemma_lex_irreflexive(a: Seq<i32>)
    ensures
        !lex_lt(a, a),
    decreases a.len(),
{
    if a.len() > 0 {
        lemma_lex_irreflexive(a.skip(1));
    }
}

/// Any two rows are ordered one way or the other, unless they are equal.
pub proof fn lemma_lex_connected(a: Seq<i32>, b: Seq<i32>)
    ensures
        lex_lt(a, b) || lex_lt(b, a) || a == b,
    decreases a.len(),
{
    if b.len() == 0 {
        if a.len() == 0 {
            assert(a =~= b);
        }
    } else if a.len() == 0 {
    } else if a[0] != b[0] {
    } else {
        lemma_lex_connected(a.skip(1), b.skip(1));
        if !lex_lt(a, b) && !lex_lt(b, a) {
            assert(a.skip(1) =~= b.skip(1));
            assert forall|i: int| 0 <= i < a.len() implies a[i] == b[i] by {
                if i >= 1 {
                    assert(a[i] == a.skip(1)[i - 1]);
                    assert(b[i] == b.skip(1)[i - 1]);
                }
            }
            assert(a =~= b);
        }
    }
}

/// Lexicographic order is transitive.
pub proof fn lemma_lex_transitive(a: Seq<i32>, b: Seq<i32>, c: Seq<i32>)
    requires
        lex_lt(a, b),
        lex_lt(b, c),
    ensures
        lex_lt(a, c),
    decreases a.len(),
{
    if a.len() == 0 {
    } else if c.len() == 0 {
    } else if b.len() == 0 {
    } else {
        if a[0] == b[0] && b[0] == c[0] {
            lemma_lex_transitive(a.skip(1), b.skip(1), c.skip(1));
        }
    }
}

/// Strictly sorted rows are pairwise distinct.
pub proof fn lemma_sorted_strict_unique(rows: Seq<Seq<i32>>)
    requires
        sorted_strict(rows),
    ensures
        forall|i: int, j: int| 0 <= i < j < rows.len() ==> rows[i] != rows[j],
{
    assert forall|i: int, j: int| 0 <= i < j < rows.len() implies rows[i] != rows[j] by {
        lemma_lex_irreflexive(rows[i]);
    }
}

/// Two strictly sorted sequences holding the same rows are the same sequence:
/// sortedness makes the representation of a row set unique, which is the
/// backbone of the library's reproducibility guarantees.
pub proof fn lemma_sorted_unique_representation(a: Seq<Seq<i32>>, b: Seq<Seq<i32>>)
    requires
        sorted_strict(a),
        sorted_strict(b),
        forall|r: Seq<i32>| a.contains(r) <==> b.contains(r),
    ensures
        a == b,
    decreases a.len(),
{
    if a.len() == 0 {
        if b.len() > 0 {
            assert(b.contains(b[0]));
            assert(a.contains(b[0]));
        }
        assert(a =~= b);
    } else {
        assert(a.contains(a[0]));
        assert(b.contains(a[0]));
        let j = choose|j: int| 0 <= j < b.len() && b[j] == a[0];
        assert(b.contains(b[0]));
        assert(a.contains(b[0]));
        let i = choose|i: int| 0 <= i < a.len() && a[i] == b[0];
        if j > 0 {
            // b[0] sorts before a[0]; but b[0] == a[i], so a[0] must equal or
            // sort before b[0]: a contradiction with irreflexivity.
            assert(lex_lt(b[0], a[0]));
            if i > 0 {
                assert(lex_lt(a[0], a[i]));
                lemma_lex_transitive(a[0], a[i], a[0]);
            }
            lemma_lex_irreflexive(a[0]);
        }
        assert(a[0] == b[0]);
        let at = a.skip(1);
        let bt = b.skip(1);
        assert(sorted_strict(at)) by {
            assert(forall|i: int, j: int|
                0 <= i < j < at.len() ==> #[trigger] at[i] == a[i + 1] && #[trigger] at[j] == a[j
                    + 1]);
        }
        assert(sorted_strict(bt)) by {
            assert(forall|i: int, j: int|
                0 <= i < j < bt.len() ==> #[trigger] bt[i] == b[i + 1] && #[trigger] bt[j] == b[j
                    + 1]);
        }
        assert forall|r: Seq<i32>| at.contains(r) implies bt.contains(r) by {
            let k = choose|k: int| 0 <= k < at.len() && at[k] == r;
            assert(a[k + 1] == r);
            assert(a.contains(r));
            assert(b.contains(r));
            let m = choose|m: int| 0 <= m < b.len() && b[m] == r;
            if m == 0 {
                // r == b[0] == a[0], yet a[0] sorts before r
                assert(lex_lt(a[0], a[k + 1]));
                lemma_lex_irreflexive(a[0]);
            }
            assert(bt[m - 1] == r);
            assert(bt.contains(r));
        }
        assert forall|r: Seq<i32>| bt.contains(r) implies at.contains(r) by {
            let k = choose|k: int| 0 <= k < bt.len() && bt[k] == r;
            assert(b[k + 1] == r);
            assert(b.contains(r));
            assert(a.contains(r));
            let m = choose|m: int| 0 <= m < a.len() && a[m] == r;
            if m == 0 {
                assert(lex_lt(b[0], b[k + 1]));
                lemma_lex_irreflexive(b[0]);
            }
            assert(at[m - 1] == r);
            assert(at.contains(r));
        }
        lemma_sorted_unique_representation(at, bt);
        assert(a.len() == at.len() + 1 && b.len() == bt.len() + 1);
        assert forall|i: int| 0 <= i < a.len() implies a[i] == b[i] by {
            if i >= 1 {
                assert(a[i] == at[i - 1]);
                assert(b[i] == bt[i - 1]);
            }
        }
        assert(a =~= b);
    }
}

/// Compare two rows for equality.
pub fn row_eq(a: &Vec<i32>, b: &Vec<i32>) -> (r: bool)
    ensures
        r == (a@ == b@),
{
    if a.len() != b.len() {
        proof {
            assert(a@.len() != b@.len());
        }
        return false;
    }
    let n = a.len();
    let mut i: usize = 0;
    while i < n
        invariant
            i <= n,
            n == a@.len() && n == b@.len(),
            forall|k: int| 0 <= k < i ==> a@[k] == b@[k],
        decreases n - i,
    {
        if a[i] != b[i] {
            return false;
        }
        i += 1;
    }
    proof {
        assert(a@ =~= b@);
    }
    true
}

/// Decide `lex_lt(a@, b@)` at runtime.
pub fn row_lt(a: &Vec<i32>, b: &Vec<i32>) -> (r: bool)
    ensures
        r == lex_lt(a@, b@),
{
    let alen = a.len();
    let blen = b.len();
    let mut i: usize = 0;
    proof {
        assert(a@.skip(0) =~= a@);
        assert(b@.skip(0) =~= b@);
    }
    loop
        invariant
            i <= alen && i <= blen,
            alen == a@.len() && blen == b@.len(),
            lex_lt(a@, b@) == lex_lt(a@.skip(i as int), b@.skip(i as int)),
        decreases alen - i,
    {
        if i == blen {
            return false;
        }
        if i == alen {
            return true;
        }
        let x = a[i];
        let y = b[i];
        if x != y {
            return x < y;
        }
        proof {
            assert(a@.skip(i as int).skip(1) =~= a@.skip(i + 1));
            assert(b@.skip(i as int).skip(1) =~= b@.skip(i + 1));
        }
        i += 1;
    }
}

/// Copy a row.
pub fn copy_row(r: &Vec<i32>) -> (c: Vec<i32>)
    ensures
        c@ == r@,
{
    let mut out: Vec<i32> = Vec::new();
    let n = r.len();
    let mut i: usize = 0;
    while i < n
        invariant
            i <= n,
            n == r@.len(),
            out@ == r@.take(i as int),
        decreases n - i,
    {
        out.push(r[i]);
        proof {
            assert(r@.take(i as int).push(r@[i as int]) =~= r@.take(i + 1));
        }
        i += 1;
    }
    proof {
        assert(r@.take(n as int) =~= r@);
    }
    out
}


/// Does `rows` hold a row equal to `row`?
pub fn rows_contain(rows: &Vec<Vec<i32>>, row: &Vec<i32>) -> (r: bool)
    ensures
        r == rows@.map_values(|v: Vec<i32>| v@).contains(row@),
{
    let ghost view = rows@.map_values(|v: Vec<i32>| v@);
    let n = rows.len();
    let mut i: usize = 0;
    while i < n
        invariant
            i <= n,
            n == view.len(),
            view == rows@.map_values(|v: Vec<i32>| v@),
            forall|k: int| 0 <= k < i ==> view[k] != row@,
        decreases n - i,
    {
        proof {
            assert(view[i as int] == rows@[i as int]@);
        }
        if row_eq(&rows[i], row) {
            proof {
                assert(view.contains(row@));
            }
            return true;
        }
        i += 1;
    }
    proof {
        if view.contains(row@) {
            let k = choose|k: int| 0 <= k < view.len() && view[k] == row@;
        }
    }
    false
}

/// Copy a list of column names.
pub fn copy_names(names: &Vec<String>) -> (c: Vec<String>)
    ensures
        c@.map_values(|s: String| s@) == names@.map_values(|s: String| s@),
        c@.len() == names@.len(),
{
    let mut out: Vec<String> = Vec::new();
    let n = names.len();
    let mut i: usize = 0;
    while i < n
        invariant
            i <= n,
            n == names@.len(),
            out@.len() == i,
            forall|k: int| 0 <= k < i ==> out@[k]@ == names@[k]@,
        decreases n - i,
    {
        out.push(names[i].clone());
        i += 1;
    }
    proof {
        assert(out@.map_values(|s: String| s@) =~= names@.map_values(|s: String| s@));
    }
    out
}

/// An ordered, duplicate-free sequence of fixed-width integer rows with named
/// columns. A hash index over the rows makes `position` a single lookup.
#[derive(Debug, PartialEq)]
pub struct Labels {
    names: Vec<String>,
    rows: Vec<Vec<i32>>,
    index: indexmap::IndexSet<Vec<i32>, std::collections::hash_map::RandomState>,
}

impl Labels {
    /// Column names, as sequences of characters.
    pub closed spec fn names_view(&self) -> Seq<Seq<char>> {
        self.names@.map_values(|s: String| s@)
    }

    /// The rows, in insertion order.
    pub closed spec fn rows_view(&self) -> Seq<Seq<i32>> {
        self.rows@.map_values(|r: Vec<i32>| r@)
    }

    /// What the hash index holds: the same rows, in the same order.
    pub closed spec fn index_view(&self) -> Seq<Seq<i32>> {
        index_set_rows(self.index)
    }

    /// Number of columns.
    pub closed spec fn spec_width(&self) -> nat {
        self.names@.len()
    }

    /// Every row has as many entries as there are columns, no two rows are
    /// equal, the row count is addressable, and the hash index mirrors the
    /// rows.
    pub open spec fn wf(&self) -> bool {
        &&& self.rows_view().len() <= usize::MAX
        &&& forall|i: int|
            0 <= i < self.rows_view().len() ==> (#[trigger] self.rows_view()[i]).len()
                == self.spec_width()
        &&& forall|i: int, j: int|
            0 <= i < j < self.rows_view().len() ==> self.rows_view()[i] != self.rows_view()[j]
        &&& self.index_view() == self.rows_view()
    }

    /// Build labels from already-checked parts.
    pub(crate) fn from_parts(names: Vec<String>, rows: Vec<Vec<i32>>) -> (r: Labels)
        requires
            forall|i: int| 0 <= i < rows@.len() ==> (#[trigger] rows@[i])@.len() == names@.len(),
            forall|i: int, j: int| 0 <= i < j < rows@.len() ==> rows@[i]@ != rows@[j]@,
        ensures
            r.wf(),
            r.names_view() == names@.map_values(|s: String| s@),
            r.rows_view() == rows@.map_values(|v: Vec<i32>| v@),
            r.spec_width() == names@.len(),
    {
        let ghost view = rows@.map_values(|v: Vec<i32>| v@);
        let mut index = index_set_new();
        let n2 = rows.len();
        let mut o: usize = 0;
        proof {
            assert(index_set_rows(index) =~= view.take(0));
        }
        while o < n2
            invariant
                o <= n2,
                n2 == rows@.len(),
                view == rows@.map_values(|v: Vec<i32>| v@),
                forall|i: int, j: int| 0 <= i < j < rows@.len() ==> rows@[i]@ != rows@[j]@,
                index_set_rows(index) == view.take(o as int),
            decreases n2 - o,
        {
            let rcopy = copy_row(&rows[o]);
            proof {
                assert(rcopy@ == view[o as int]);
                assert(!view.take(o as int).contains(view[o as int])) by {
                    if view.take(o as int).contains(view[o as int]) {
                        let k = choose|k: int|
                            0 <= k < o && view.take(o as int)[k] == view[o as int];
                        assert(view[k] == rows@[k]@ && view[o as int] == rows@[o as int]@);
                    }
                }
            }
            index_set_insert(&mut index, rcopy);
            proof {
                assert(index_set_rows(index) =~= view.take(o + 1));
            }
            o += 1;
        }
        proof {
            assert(view.take(n2 as int) =~= view);
        }
        let r = Labels { names, rows, index };
        let n = r.rows.len();
        proof {
            assert(r.rows_view().len() == n);
            assert(r.index_view() == r.rows_view());
            assert forall|i: int|
                0 <= i < r.rows_view().len() implies (#[trigger] r.rows_view()[i]).len()
                == r.spec_width() by {
                assert(r.rows_view()[i] == r.rows@[i]@);
            }
            assert forall|i: int, j: int|
                0 <= i < j < r.rows_view().len() implies r.rows_view()[i]
                != r.rows_view()[j] by {
                assert(r.rows_view()[i] == r.rows@[i]@ && r.rows_view()[j] == r.rows@[j]@);
            }
        }
        r
    }

    /// Number of rows.
    pub fn count(&self) -> (n: usize)
        ensures
            n == self.rows_view().len(),
    {
        self.rows.len()
    }

    /// Number of columns.
    pub fn size(&self) -> (n: usize)
        ensures
            n == self.spec_width(),
    {
        self.names.len()
    }

    /// The column names.
    pub fn names(&self) -> (r: &Vec<String>)
        ensures
            r@.map_values(|s: String| s@) == self.names_view(),
            r@.len() == self.spec_width(),
    {
        &self.names
    }

    /// The `i`-th row, in insertion order.
    pub fn row(&self, i: usize) -> (r: &Vec<i32>)
        requires
            i < self.rows_view().len(),
        ensures
            r@ == self.rows_view()[i as int],
    {
        &self.rows[i]
    }

    /// The insertion index of `row`, if it is present: one lookup in the
    /// hash index.
    pub fn position(&self, row: &Vec<i32>) -> (r: Option<usize>)
        requires
            self.wf(),
        ensures
            match r {
                Some(i) => i < self.rows_view().len() && self.rows_view()[i as int] == row@,
                None => !self.rows_view().contains(row@),
            },
    {
        index_set_position(&self.index, row)
    }
}

/// Incremental construction of [`Labels`]: rows are appended in order, a
/// duplicate or ill-sized row is rejected.
#[derive(Debug)]
pub struct LabelsBuilder {
    names: Vec<String>,
    rows: Vec<Vec<i32>>,
}

impl LabelsBuilder {
    /// Column names of the labels being built.
    pub closed spec fn names_view(&self) -> Seq<Seq<char>> {
        self.names@.map_values(|s: String| s@)
    }

    /// Rows added so far.
    pub closed spec fn rows_view(&self) -> Seq<Seq<i32>> {
        self.rows@.map_values(|r: Vec<i32>| r@)
    }

    /// Number of columns.
    pub closed spec fn spec_width(&self) -> nat {
        self.names@.len()
    }

    /// Same shape discipline as [`Labels::wf`].
    pub open spec fn wf(&self) -> bool {
        &&& forall|i: int|
            0 <= i < self.rows_view().len() ==> (#[trigger] self.rows_view()[i]).len()
                == self.spec_width()
        &&& forall|i: int, j: int|
            0 <= i < j < self.rows_view().len() ==> self.rows_view()[i] != self.rows_view()[j]
    }

    /// Start building labels with the given column names.
    pub fn new(names: Vec<String>) -> (r: LabelsBuilder)
        ensures
            r.wf(),
            r.names_view() == names@.map_values(|s: String| s@),
            r.spec_width() == names@.len(),
            r.rows_view() == Seq::<Seq<i32>>::empty(),
    {
        let r = LabelsBuilder { names, rows: Vec::new() };
        proof {
            assert(r.rows_view() =~= Seq::<Seq<i32>>::empty());
        }
        r
    }

    /// Append one row. Fails with `LabelShape` when the row width does not
    /// match the column count, and with `DuplicateRow` when an identical row
    /// was already added; a failed call leaves the builder unchanged.
    pub fn add(&mut self, row: &Vec<i32>) -> (r: Result<(), Error>)
        requires
            old(self).wf(),
        ensures
            final(self).wf(),
            final(self).names_view() == old(self).names_view(),
            final(self).spec_width() == old(self).spec_width(),
            match r {
                Ok(()) => row@.len() == old(self).spec_width() && !old(self).rows_view().contains(
                    row@,
                ) && final(self).rows_view() == old(self).rows_view().push(row@),
                Err(Error::LabelShape(_)) => row@.len() != old(self).spec_width() && *final(self)
                    == *old(self),
                Err(Error::DuplicateRow(_)) => row@.len() == old(self).spec_width() && old(
                    self,
                ).rows_view().contains(row@) && *final(self) == *old(self),
                Err(_) => false,
            },
    {
        if row.len() != self.names.len() {
            return Err(Error::LabelShape("row width does not match the label names".to_owned()));
        }
        if rows_contain(&self.rows, row) {
            return Err(Error::DuplicateRow("this row was already added".to_owned()));
        }
        let copied = copy_row(row);
        let ghost oldrows = self.rows_view();
        self.rows.push(copied);
        proof {
            assert(self.rows_view() =~= oldrows.push(row@));
            assert forall|i: int, j: int|
                0 <= i < j < self.rows_view().len() implies self.rows_view()[i]
                != self.rows_view()[j] by {
                if j + 1 == self.rows_view().len() {
                    assert(self.rows_view()[i] == oldrows[i]);
                    assert(self.rows_view()[j] == row@);
                    assert(oldrows[i] != row@) by {
                        if oldrows[i] == row@ {
                            assert(oldrows.contains(row@));
                        }
                    }
                } else {
                    assert(self.rows_view()[i] == oldrows[i] && self.rows_view()[j] == oldrows[j]);
                }
            }
        }
        Ok(())
    }

    /// Finish building: the labels hold exactly the rows added, in order.
    pub fn finish(self) -> (r: Labels)
        requires
            self.wf(),
        ensures
            r.wf(),
            r.names_view() == self.names_view(),
            r.rows_view() == self.rows_view(),
            r.spec_width() == self.spec_width(),
    {
        proof {
            assert forall|i: int|
                0 <= i < self.rows@.len() implies (#[trigger] self.rows@[i])@.len()
                == self.names@.len() by {
                assert(self.rows_view()[i] == self.rows@[i]@);
            }
            assert forall|i: int, j: int|
                0 <= i < j < self.rows@.len() implies self.rows@[i]@ != self.rows@[j]@ by {
                assert(self.rows_view()[i] == self.rows@[i]@ && self.rows_view()[j]
                    == self.rows@[j]@);
            }
        }
        Labels::from_parts(self.names, self.rows)
    }
}

} // verus!
