//! Dense n-dimensional tensors of binary64 bit patterns.
//!
//! A tensor is a flat buffer with a shape; entries are addressed row-major.
//! Only what the calculators need is provided: allocation filled with the
//! bit pattern of zero, and single-entry reads and writes.

use vstd::prelude::*;

verus! {

/// Number of entries of a tensor with the given shape.
pub open spec fn shape_product_prefix(shape: Seq<usize>, d: int) -> nat
    decreases d,
{
    if d <= 0 {
        1
    } else {
        shape_product_prefix(shape, d - 1) * (shape[d - 1] as nat)
    }
}

/// Total number of entries of a tensor with the given shape.
pub open spec fn shape_product(shape: Seq<usize>) -> nat {
    shape_product_prefix(shape, shape.len() as int)
}

/// Every axis-prefix entry count of the shape is addressable: exactly the
/// shapes a tensor of this module can be allocated with.
pub open spec fn shape_fits(shape: Seq<usize>) -> bool {
    forall|d: int| 1 <= d <= shape.len() ==> shape_product_prefix(shape, d) <= usize::MAX
}

/// `idx` addresses an entry of a tensor with shape `shape`.
pub open spec fn valid_index(shape: Seq<usize>, idx: Seq<int>) -> bool {
    idx.len() == shape.len() && forall|d: int| 0 <= d < idx.len() ==> 0 <= #[trigger] idx[d] < shape[d]
}

/// Row-major position of the entry at `idx`, over the first `d` axes.
pub open spec fn flatten_prefix(shape: Seq<usize>, idx: Seq<int>, d: int) -> int
    decreases d,
{
    if d <= 0 {
        0
    } else {
        flatten_prefix(shape, idx, d - 1) * shape[d - 1] + idx[d - 1]
    }
}

/// Row-major position of the entry at `idx`.
pub open spec fn flatten(shape: Seq<usize>, idx: Seq<int>) -> int {
    flatten_prefix(shape, idx, shape.len() as int)
}

/// The flat position of a valid index lies within the entry count.
pub proof fn lemma_flatten_bound(shape: Seq<usize>, idx: Seq<int>, d: int)
    requires
        valid_index(shape, idx),
        0 <= d <= shape.len(),
    ensures
        0 <= flatten_prefix(shape, idx, d),
        flatten_prefix(shape, idx, d) < shape_product_prefix(shape, d),
    decreases d,
{
    if d == 0 {
    } else {
        lemma_flatten_bound(shape, idx, d - 1);
        let f = flatten_prefix(shape, idx, d - 1);
        let p = shape_product_prefix(shape, d - 1);
        assert(f * shape[d - 1] + idx[d - 1] < p * shape[d - 1]) by (nonlinear_arith)
            requires
                0 <= f,
                f < p,
                0 <= idx[d - 1] < shape[d - 1],
        ;
        assert(0 <= f * shape[d - 1] + idx[d - 1]) by (nonlinear_arith)
            requires
                0 <= f,
                0 <= idx[d - 1],
                shape[d - 1] >= 0,
        ;
    }
}

/// Later axes only grow the entry count when every axis is occupied.
pub proof fn lemma_product_prefix_le(shape: Seq<usize>, d: int)
    requires
        0 <= d <= shape.len(),
        forall|e: int| 0 <= e < shape.len() ==> shape[e] >= 1,
    ensures
        shape_product_prefix(shape, d) <= shape_product(shape),
    decreases shape.len() - d,
{
    if d < shape.len() {
        lemma_product_prefix_le(shape, d + 1);
        let p = shape_product_prefix(shape, d);
        assert(p <= p * shape[d]) by (nonlinear_arith)
            requires
                shape[d] >= 1,
                p >= 0,
        ;
    }
}

/// Two valid indices with the same flat position are the same index.
pub proof fn lemma_flatten_injective(shape: Seq<usize>, a: Seq<int>, b: Seq<int>, d: int)
    requires
        valid_index(shape, a),
        valid_index(shape, b),
        0 <= d <= shape.len(),
        flatten_prefix(shape, a, d) == flatten_prefix(shape, b, d),
    ensures
        forall|e: int| 0 <= e < d ==> a[e] == b[e],
    decreases d,
{
    if d > 0 {
        let fa = flatten_prefix(shape, a, d - 1);
        let fb = flatten_prefix(shape, b, d - 1);
        lemma_flatten_bound(shape, a, d - 1);
        lemma_flatten_bound(shape, b, d - 1);
        assert(fa == fb && a[d - 1] == b[d - 1]) by (nonlinear_arith)
            requires
                fa * shape[d - 1] + a[d - 1] == fb * shape[d - 1] + b[d - 1],
                0 <= a[d - 1] < shape[d - 1],
                0 <= b[d - 1] < shape[d - 1],
        ;
        lemma_flatten_injective(shape, a, b, d - 1);
    }
}

/// A dense tensor of binary64 bit patterns, stored row-major.
#[derive(Debug, Clone, PartialEq)]
pub struct DenseTensor {
    shape: Vec<usize>,
    data: Vec<u64>,
}

impl DenseTensor {
    /// The shape of the tensor.
    pub closed spec fn spec_shape(&self) -> Seq<usize> {
        self.shape@
    }

    /// The flat buffer of the tensor.
    pub closed spec fn spec_data(&self) -> Seq<u64> {
        self.data@
    }

    /// The entry at a valid index.
    pub open spec fn at(&self, idx: Seq<int>) -> u64 {
        self.spec_data()[flatten(self.spec_shape(), idx)]
    }

    /// The buffer holds exactly one entry per addressable index.
    pub open spec fn wf(&self) -> bool {
        self.spec_data().len() == shape_product(self.spec_shape())
    }

    /// Allocate a tensor of the given shape, every entry the bit pattern of
    /// zero: possible exactly when every axis-prefix entry count fits the
    /// address space.
    pub fn zeros(shape: Vec<usize>) -> (r: Option<DenseTensor>)
        ensures
            r matches Some(t) ==> t.wf() && t.spec_shape() == shape@ && forall|idx: Seq<int>|
                valid_index(shape@, idx) ==> #[trigger] t.at(idx) == 0u64,
            r matches Some(t) ==> forall|i: int|
                0 <= i < t.spec_data().len() ==> #[trigger] t.spec_data()[i] == 0u64,
            r is Some <==> shape_fits(shape@),
    {
        let total = match checked_shape_product(&shape) {
            Some(t) => t,
            None => {
                return None;
            },
        };
        let mut data: Vec<u64> = Vec::new();
        let mut i: usize = 0;
        while i < total
            invariant
                i <= total,
                data@.len() == i,
                forall|j: int| 0 <= j < i ==> data@[j] == 0u64,
            decreases total - i,
        {
            data.push(0u64);
            i += 1;
        }
        let t = DenseTensor { shape, data };
        proof {
            assert forall|idx: Seq<int>| valid_index(t.spec_shape(), idx) implies #[trigger] t.at(
                idx,
            ) == 0u64 by {
                lemma_flatten_bound(t.spec_shape(), idx, t.spec_shape().len() as int);
            }
        }
        Some(t)
    }

    /// The shape of the tensor, axis by axis.
    pub fn shape(&self) -> (r: &Vec<usize>)
        ensures
            r@ == self.spec_shape(),
    {
        &self.shape
    }

    /// Compute the flat position of a valid index.
    fn flat_position(&self, idx: &Vec<usize>) -> (r: usize)
        requires
            self.wf(),
            valid_index(self.spec_shape(), idx@.map_values(|x: usize| x as int)),
        ensures
            r == flatten(self.spec_shape(), idx@.map_values(|x: usize| x as int)),
            r < self.spec_data().len(),
    {
        let ghost iidx = idx@.map_values(|x: usize| x as int);
        proof {
            assert(forall|d: int| 0 <= d < iidx.len() ==> (#[trigger] iidx[d]) == idx@[d] as int);
            assert forall|e: int| 0 <= e < self.spec_shape().len() implies self.spec_shape()[e]
                >= 1 by {
                assert(0 <= iidx[e] < self.spec_shape()[e]);
            }
        }
        let nd = self.shape.len();
        let n = self.data.len();
        let mut f: usize = 0;
        let mut d: usize = 0;
        while d < nd
            invariant
                d <= nd,
                nd == self.spec_shape().len(),
                n == self.spec_data().len(),
                self.wf(),
                valid_index(self.spec_shape(), iidx),
                iidx == idx@.map_values(|x: usize| x as int),
                idx@.len() == nd,
                forall|e: int| 0 <= e < self.spec_shape().len() ==> self.spec_shape()[e] >= 1,
                f == flatten_prefix(self.spec_shape(), iidx, d as int),
            decreases nd - d,
        {
            proof {
                lemma_flatten_bound(self.spec_shape(), iidx, d + 1);
                lemma_product_prefix_le(self.spec_shape(), d + 1);
                assert(iidx[d as int] == idx@[d as int] as int);
                assert(flatten_prefix(self.spec_shape(), iidx, d + 1) == f * self.spec_shape()[d as int]
                    + iidx[d as int]);
                assert(f * self.spec_shape()[d as int] + iidx[d as int] < shape_product(
                    self.spec_shape(),
                ));
                assert(shape_product(self.spec_shape()) == self.spec_data().len());
                assert(f * self.spec_shape()[d as int] <= f * self.spec_shape()[d as int]
                    + iidx[d as int]);
            }
            f = f * self.shape[d] + idx[d];
            d += 1;
        }
        proof {
            lemma_flatten_bound(self.spec_shape(), iidx, nd as int);
        }
        f
    }

    /// Read the entry at `idx`.
    pub fn get(&self, idx: &Vec<usize>) -> (r: u64)
        requires
            self.wf(),
            valid_index(self.spec_shape(), idx@.map_values(|x: usize| x as int)),
        ensures
            r == self.at(idx@.map_values(|x: usize| x as int)),
    {
        let f = self.flat_position(idx);
        self.data[f]
    }

    /// Write `value` at `idx`; every other entry and the shape are kept.
    pub fn set(&mut self, idx: &Vec<usize>, value: u64)
        requires
            old(self).wf(),
            valid_index(old(self).spec_shape(), idx@.map_values(|x: usize| x as int)),
        ensures
            final(self).wf(),
            final(self).spec_shape() == old(self).spec_shape(),
            final(self).at(idx@.map_values(|x: usize| x as int)) == value,
            forall|other: Seq<int>|
                valid_index(old(self).spec_shape(), other) && other != idx@.map_values(
                    |x: usize| x as int,
                ) ==> #[trigger] final(self).at(other) == old(self).at(other),
    {
        let ghost iidx = idx@.map_values(|x: usize| x as int);
        let f = self.flat_position(idx);
        self.data.set(f, value);
        proof {
            let shape = self.spec_shape();
            lemma_flatten_bound(shape, iidx, shape.len() as int);
            assert forall|other: Seq<int>|
                valid_index(shape, other) && other != iidx implies #[trigger] self.at(other) == old(
                self,
            ).at(other) by {
                lemma_flatten_bound(shape, other, shape.len() as int);
                if flatten(shape, other) == flatten(shape, iidx) {
                    lemma_flatten_injective(shape, other, iidx, shape.len() as int);
                    assert(other =~= iidx);
                }
            }
        }
    }
}

} // verus!

verus! {

/// An empty two-axis tensor.
pub fn empty_2d() -> (r: DenseTensor)
    ensures
        r.wf(),
        r.spec_shape() == seq![0usize, 0usize],
        r.spec_data().len() == 0,
{
    let mut shape: Vec<usize> = Vec::new();
    shape.push(0);
    shape.push(0);
    let data: Vec<u64> = Vec::new();
    let r = DenseTensor { shape, data };
    proof {
        assert(r.spec_shape() =~= seq![0usize, 0usize]);
        assert(shape_product_prefix(r.spec_shape(), 1) == shape_product_prefix(r.spec_shape(), 0)
            * (r.spec_shape()[0] as nat));
        assert(shape_product_prefix(r.spec_shape(), 2) == shape_product_prefix(r.spec_shape(), 1)
            * (r.spec_shape()[1] as nat));
        assert(shape_product(r.spec_shape()) == 0);
    }
    r
}

/// The entry count of a shape: `Some` exactly when every axis-prefix count
/// fits the address space.
fn checked_shape_product(shape: &Vec<usize>) -> (r: Option<usize>)
    ensures
        r matches Some(t) ==> t == shape_product(shape@),
        r is Some <==> shape_fits(shape@),
{
    let nd = shape.len();
    let mut total: usize = 1;
    let mut d: usize = 0;
    while d < nd
        invariant
            d <= nd,
            nd == shape@.len(),
            total == shape_product_prefix(shape@, d as int),
            forall|d2: int| 0 <= d2 <= d ==> shape_product_prefix(shape@, d2) <= usize::MAX,
        decreases nd - d,
    {
        total = match total.checked_mul(shape[d]) {
            Some(t) => t,
            None => {
                proof {
                    assert(shape_product_prefix(shape@, d + 1) == shape_product_prefix(
                        shape@,
                        d as int,
                    ) * (shape@[d as int] as nat));
                    assert(!shape_fits(shape@));
                }
                return None;
            },
        };
        proof {
            assert(shape_product_prefix(shape@, d + 1) == shape_product_prefix(shape@, d as int)
                * (shape@[d as int] as nat));
        }
        d += 1;
    }
    Some(total)
}

impl DenseTensor {
    /// Give the tensor a new shape, keeping the flat buffer where it
    /// overlaps and filling the rest with the bit pattern of zero. `false`
    /// (and no change) exactly when an axis-prefix entry count of the new
    /// shape overflows the address space.
    pub fn resize(&mut self, shape: Vec<usize>) -> (r: bool)
        requires
            old(self).wf(),
        ensures
            final(self).wf(),
            r == shape_fits(shape@),
            r ==> final(self).spec_shape() == shape@ && final(self).spec_data().len()
                == shape_product(shape@) && forall|i: int|
                0 <= i < final(self).spec_data().len() ==> #[trigger] final(self).spec_data()[i]
                    == (if i < old(self).spec_data().len() {
                    old(self).spec_data()[i]
                } else {
                    0u64
                }),
            !r ==> *final(self) == *old(self),
    {
        let total = match checked_shape_product(&shape) {
            Some(t) => t,
            None => {
                return false;
            },
        };
        let n = self.data.len();
        let mut data: Vec<u64> = Vec::new();
        let mut i: usize = 0;
        while i < total
            invariant
                i <= total,
                data@.len() == i,
                n == self.spec_data().len(),
                *self == *old(self),
                forall|j: int|
                    0 <= j < i ==> #[trigger] data@[j] == (if j < old(self).spec_data().len() {
                        old(self).spec_data()[j]
                    } else {
                        0u64
                    }),
            decreases total - i,
        {
            if i < n {
                let v = self.data[i];
                data.push(v);
            } else {
                data.push(0u64);
            }
            i += 1;
        }
        self.shape = shape;
        self.data = data;
        true
    }
}

} // verus!

verus! {

/// A two-axis shape fits exactly when the product of its sizes does.
pub proof fn lemma_shape2_fits(a: usize, b: usize)
    ensures
        shape_fits(seq![a, b]) <==> (a as nat) * (b as nat) <= usize::MAX,
{
    let shape = seq![a, b];
    assert(shape[0] == a && shape[1] == b);
    assert(shape_product_prefix(shape, 0) == 1);
    assert(shape_product_prefix(shape, 1) == shape_product_prefix(shape, 0) * (shape[0] as nat));
    assert(shape_product_prefix(shape, 2) == shape_product_prefix(shape, 1) * (shape[1] as nat));
    assert(shape_product_prefix(shape, 1) == a as nat);
    assert(shape_product_prefix(shape, 2) == (a as nat) * (b as nat));
    if (a as nat) * (b as nat) <= usize::MAX {
        assert forall|d: int| 1 <= d <= shape.len() implies shape_product_prefix(shape, d)
            <= usize::MAX by {
            if d == 1 {
            } else {
                assert(d == 2);
            }
        }
    }
}

/// A three-axis shape fits exactly when its prefix products do.
pub proof fn lemma_shape3_fits(a: usize, b: usize, c: usize)
    ensures
        shape_fits(seq![a, b, c]) <==> ((a as nat) * (b as nat) <= usize::MAX && (a as nat) * (
        b as nat) * (c as nat) <= usize::MAX),
{
    let shape = seq![a, b, c];
    assert(shape[0] == a && shape[1] == b && shape[2] == c);
    assert(shape_product_prefix(shape, 0) == 1);
    assert(shape_product_prefix(shape, 1) == shape_product_prefix(shape, 0) * (shape[0] as nat));
    assert(shape_product_prefix(shape, 2) == shape_product_prefix(shape, 1) * (shape[1] as nat));
    assert(shape_product_prefix(shape, 3) == shape_product_prefix(shape, 2) * (shape[2] as nat));
    assert(shape_product_prefix(shape, 1) == a as nat);
    assert(shape_product_prefix(shape, 2) == (a as nat) * (b as nat));
    assert(shape_product_prefix(shape, 3) == (a as nat) * (b as nat) * (c as nat));
    if (a as nat) * (b as nat) <= usize::MAX && (a as nat) * (b as nat) * (c as nat)
        <= usize::MAX {
        assert forall|d: int| 1 <= d <= shape.len() implies shape_product_prefix(shape, d)
            <= usize::MAX by {
            if d == 1 {
            } else if d == 2 {
            } else {
                assert(d == 3);
            }
        }
    }
}

/// A four-axis shape fits exactly when its prefix products do.
pub proof fn lemma_shape4_fits(a: usize, b: usize, c: usize, e: usize)
    ensures
        shape_fits(seq![a, b, c, e]) <==> ((a as nat) * (b as nat) <= usize::MAX && (a as nat) * (
        b as nat) * (c as nat) <= usize::MAX && (a as nat) * (b as nat) * (c as nat) * (e as nat)
            <= usize::MAX),
{
    let shape = seq![a, b, c, e];
    assert(shape[0] == a && shape[1] == b && shape[2] == c && shape[3] == e);
    assert(shape_product_prefix(shape, 0) == 1);
    assert(shape_product_prefix(shape, 1) == shape_product_prefix(shape, 0) * (shape[0] as nat));
    assert(shape_product_prefix(shape, 2) == shape_product_prefix(shape, 1) * (shape[1] as nat));
    assert(shape_product_prefix(shape, 3) == shape_product_prefix(shape, 2) * (shape[2] as nat));
    assert(shape_product_prefix(shape, 4) == shape_product_prefix(shape, 3) * (shape[3] as nat));
    assert(shape_product_prefix(shape, 1) == a as nat);
    assert(shape_product_prefix(shape, 2) == (a as nat) * (b as nat));
    assert(shape_product_prefix(shape, 3) == (a as nat) * (b as nat) * (c as nat));
    assert(shape_product_prefix(shape, 4) == (a as nat) * (b as nat) * (c as nat) * (e as nat));
    if (a as nat) * (b as nat) <= usize::MAX && (a as nat) * (b as nat) * (c as nat) <= usize::MAX
        && (a as nat) * (b as nat) * (c as nat) * (e as nat) <= usize::MAX {
        assert forall|d: int| 1 <= d <= shape.len() implies shape_product_prefix(shape, d)
            <= usize::MAX by {
            if d == 1 {
            } else if d == 2 {
            } else if d == 3 {
            } else {
                assert(d == 4);
            }
        }
    }
}

/// Does the entry count of a two-axis tensor fit the address space?
pub fn shape2_fits(a: usize, b: usize) -> (r: bool)
    ensures
        r == ((a as nat) * (b as nat) <= usize::MAX),
{
    a.checked_mul(b).is_some()
}

} // verus!
