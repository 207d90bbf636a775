//! A set of label rows kept as a sorted vector.
//!
//! Sample and key builders accumulate rows in a `SortedVecSet` so that the
//! emitted labels are unique and in ascending lexicographic order whatever
//! the order of discovery — hash-set iteration never decides an output order.

use vstd::prelude::*;

use crate::labels::{
    lemma_lex_connected, lemma_lex_irreflexive, lemma_lex_transitive, lex_lt, row_eq, row_lt,
    sorted_strict,
};

verus! {

/// Index of the first row in `rows` that does not sort strictly before
/// `value`; `rows.len()` when every row does.
fn lower_bound(rows: &Vec<Vec<i32>>, value: &Vec<i32>) -> (i: usize)
    ensures
        i <= rows@.len(),
        forall|k: int| 0 <= k < i ==> lex_lt((#[trigger] rows@[k])@, value@),
        i < rows@.len() ==> !lex_lt(rows@[i as int]@, value@),
{
    let ghost view = rows@.map_values(|v: Vec<i32>| v@);
    let n = rows.len();
    let mut i: usize = 0;
    while i < n
        invariant
            i <= n,
            n == view.len(),
            view == rows@.map_values(|v: Vec<i32>| v@),
            forall|k: int| 0 <= k < i ==> lex_lt((#[trigger] rows@[k])@, value@),
        decreases n - i,
    {
        if !row_lt(&rows[i], value) {
            return i;
        }
        i += 1;
    }
    i
}

/// A set of integer rows represented as a sorted, duplicate-free vector.
#[derive(Debug, Clone)]
pub struct SortedVecSet {
    data: Vec<Vec<i32>>,
}

impl SortedVecSet {
    /// The rows of the set, in ascending lexicographic order.
    pub closed spec fn rows_view(&self) -> Seq<Seq<i32>> {
        self.data@.map_values(|r: Vec<i32>| r@)
    }

    /// The representation is strictly sorted (hence duplicate-free).
    pub open spec fn wf(&self) -> bool {
        sorted_strict(self.rows_view())
    }

    /// An empty set.
    pub fn new() -> (r: SortedVecSet)
        ensures
            r.wf(),
            r.rows_view() == Seq::<Seq<i32>>::empty(),
    {
        let r = SortedVecSet { data: Vec::new() };
        proof {
            assert(r.rows_view() =~= Seq::<Seq<i32>>::empty());
        }
        r
    }

    /// Number of rows in the set.
    pub fn len(&self) -> (n: usize)
        ensures
            n == self.rows_view().len(),
    {
        self.data.len()
    }

    /// The `i`-th row in sorted order.
    pub fn row(&self, i: usize) -> (r: &Vec<i32>)
        requires
            i < self.rows_view().len(),
        ensures
            r@ == self.rows_view()[i as int],
    {
        proof {
            assert(self.rows_view()[i as int] == self.data@[i as int]@);
        }
        &self.data[i]
    }

    /// Add `value` to the set; a row already present is left in place.
    pub fn insert(&mut self, value: Vec<i32>)
        requires
            old(self).wf(),
        ensures
            final(self).wf(),
            forall|r: Seq<i32>|
                final(self).rows_view().contains(r) <==> old(self).rows_view().contains(r) || r
                    == value@,
    {
        let ghost oldview = self.rows_view();
        let i = lower_bound(&self.data, &value);
        proof {
            assert forall|k: int| 0 <= k < oldview.len() implies #[trigger] oldview[k]
                == self.data@[k]@ by {}
        }
        if i < self.data.len() {
            proof {
                assert(oldview[i as int] == self.data@[i as int]@);
            }
            if row_eq(&self.data[i], &value) {
                proof {
                    assert(oldview.contains(value@));
                }
                return ;
            }
        }
        proof {
            // at the insertion point the next row sorts strictly after `value`
            if i < oldview.len() {
                lemma_lex_connected(oldview[i as int], value@);
            }
        }
        let ghost n = self.data@.len() as int;
        self.data.insert(i, value);
        proof {
            let newview = self.rows_view();
            assert(newview =~= oldview.insert(i as int, value@)) by {
                assert(forall|k: int|
                    0 <= k < newview.len() ==> (#[trigger] newview[k]) == self.data@[k]@);
            }
            let ins = oldview.insert(i as int, value@);
            assert forall|p: int, q: int| 0 <= p < q < ins.len() implies lex_lt(
                ins[p],
                ins[q],
            ) by {
                if q < i {
                    assert(ins[p] == oldview[p] && ins[q] == oldview[q]);
                } else if p > i {
                    assert(ins[p] == oldview[p - 1] && ins[q] == oldview[q - 1]);
                } else if p < i && q == i {
                    assert(ins[p] == oldview[p] && ins[q] == value@);
                } else if p == i && q > i {
                    assert(ins[p] == value@ && ins[q] == oldview[q - 1]);
                    assert(lex_lt(value@, oldview[i as int]));
                    if q - 1 > i {
                        assert(lex_lt(oldview[i as int], oldview[q - 1]));
                        lemma_lex_transitive(value@, oldview[i as int], oldview[q - 1]);
                    }
                } else if p < i && q > i {
                    assert(ins[p] == oldview[p] && ins[q] == oldview[q - 1]);
                    if q - 1 > p {
                        assert(lex_lt(oldview[p], oldview[q - 1]));
                    } else {
                        // q - 1 == p == i - 1 < i, so oldview[p] sorts before value
                        assert(lex_lt(oldview[p], value@));
                        assert(lex_lt(value@, oldview[i as int]));
                    }
                }
            }
            assert forall|r: Seq<i32>| newview.contains(r) implies oldview.contains(r) || r
                == value@ by {
                let k = choose|k: int| 0 <= k < newview.len() && newview[k] == r;
                if k < i {
                    assert(oldview[k] == r);
                    assert(oldview.contains(r));
                } else if k > i {
                    assert(oldview[k - 1] == r);
                    assert(oldview.contains(r));
                }
            }
            assert forall|r: Seq<i32>| oldview.contains(r) || r == value@ implies newview.contains(
                r,
            ) by {
                if oldview.contains(r) {
                    let k = choose|k: int| 0 <= k < oldview.len() && oldview[k] == r;
                    if k < i {
                        assert(newview[k] == r);
                    } else {
                        assert(newview[k + 1] == r);
                    }
                } else {
                    assert(newview[i as int] == r);
                }
            }
        }
    }

    /// Hand the rows out, sorted ascending.
    pub fn into_rows(self) -> (r: Vec<Vec<i32>>)
        ensures
            r@.map_values(|v: Vec<i32>| v@) == self.rows_view(),
    {
        self.data
    }
}

} // verus!
