//! Block-structured tensors keyed by label rows.
//!
//! A `TensorMap` pairs each row of its `keys` labels with one block. A block
//! carries a dense values tensor whose axes are named by labels — samples,
//! zero or more components, properties — and optionally a position-gradient
//! block of the same build whose samples reference the parent's sample rows.
//! After construction the keys, shapes and axis labels never change; only
//! tensor entries are written.

use vstd::prelude::*;

use crate::labels::Labels;
use crate::tensor::{shape_product, valid_index, DenseTensor};
use crate::Error;

verus! {

/// The axis sizes a block with the given labels has: samples, components,
/// properties.
pub open spec fn axes_shape(samples: Labels, components: Seq<Labels>, properties: Labels) -> Seq<
    usize,
> {
    seq![samples.rows_view().len() as usize].add(
        components.map_values(|c: Labels| c.rows_view().len() as usize),
    ).push(properties.rows_view().len() as usize)
}

/// One labeled dense tensor: a samples axis, component axes, and a
/// properties axis.
#[derive(Debug, PartialEq)]
pub struct BasicBlock {
    /// Labels of the first axis: what each row describes.
    pub samples: Labels,
    /// Labels of the inner axes.
    pub components: Vec<Labels>,
    /// Labels of the last axis.
    pub properties: Labels,
    /// The entries, one per combination of axis rows.
    pub data: DenseTensor,
}

impl BasicBlock {
    /// The axis sizes the labels dictate.
    pub open spec fn labels_shape(&self) -> Seq<usize> {
        axes_shape(self.samples, self.components@, self.properties)
    }

    /// Labels are well-formed and the tensor has exactly the shape the
    /// labels dictate.
    pub open spec fn wf(&self) -> bool {
        &&& self.samples.wf()
        &&& self.properties.wf()
        &&& forall|c: int| 0 <= c < self.components@.len() ==> (#[trigger] self.components@[c]).wf()
        &&& self.data.wf()
        &&& self.data.spec_shape() == self.labels_shape()
    }

    /// Allocate a zero-filled block with the given axis labels: possible
    /// exactly when every axis-prefix entry count fits the address space.
    pub fn new(samples: Labels, components: Vec<Labels>, properties: Labels) -> (r: Option<
        BasicBlock,
    >)
        requires
            samples.wf(),
            properties.wf(),
            forall|c: int| 0 <= c < components@.len() ==> (#[trigger] components@[c]).wf(),
        ensures
            r matches Some(b) ==> b.wf() && b.samples == samples && b.components@ == components@
                && b.properties == properties && forall|idx: Seq<int>|
                valid_index(b.data.spec_shape(), idx) ==> #[trigger] b.data.at(idx) == 0u64,
            r is Some <==> crate::tensor::shape_fits(axes_shape(samples, components@, properties)),
    {
        let ghost ax = axes_shape(samples, components@, properties);
        let mut shape: Vec<usize> = Vec::new();
        shape.push(samples.count());
        let nc = components.len();
        let mut c: usize = 0;
        while c < nc
            invariant
                c <= nc,
                nc == components@.len(),
                shape@.len() == c + 1,
                shape@[0] == samples.rows_view().len(),
                forall|e: int|
                    0 <= e < c ==> (#[trigger] shape@[e + 1])
                        == components@[e].rows_view().len(),
        decreases nc - c,
        {
            shape.push(components[c].count());
            c += 1;
        }
        shape.push(properties.count());
        proof {
            let m = components@.map_values(|l: Labels| l.rows_view().len() as usize);
            assert(ax.len() == components@.len() + 2);
            assert forall|e: int| 0 <= e < ax.len() implies shape@[e] == ax[e] by {
                if e == 0 {
                    assert(shape@[0] == samples.rows_view().len());
                    assert(samples.rows_view().len() <= usize::MAX);
                    assert(ax[0] == samples.rows_view().len() as usize);
                } else if e <= components@.len() {
                    assert(shape@[(e - 1) + 1] == components@[e - 1].rows_view().len());
                    assert(shape@[e] == components@[e - 1].rows_view().len());
                    assert(components@[e - 1].rows_view().len() <= usize::MAX);
                    assert(ax[e] == m[e - 1]);
                    assert(m[e - 1] == components@[e - 1].rows_view().len() as usize);
                } else {
                    assert(shape@[e] == properties.rows_view().len());
                    assert(properties.rows_view().len() <= usize::MAX);
                    assert(ax[e] == properties.rows_view().len() as usize);
                }
            }
            assert(shape@ =~= ax);
        }
        let data = match DenseTensor::zeros(shape) {
            Some(d) => d,
            None => {
                return None;
            },
        };
        let b = BasicBlock { samples, components, properties, data };
        proof {
            assert(b.labels_shape() == ax);
        }
        Some(b)
    }
}

impl BasicBlock {
    /// Write one entry; labels, shape and every other entry are kept.
    pub fn set_entry(&mut self, idx: &Vec<usize>, value: u64)
        requires
            old(self).wf(),
            valid_index(old(self).data.spec_shape(), idx@.map_values(|x: usize| x as int)),
        ensures
            final(self).wf(),
            final(self).samples == old(self).samples,
            final(self).components@ == old(self).components@,
            final(self).properties == old(self).properties,
            final(self).data.spec_shape() == old(self).data.spec_shape(),
            final(self).data.at(idx@.map_values(|x: usize| x as int)) == value,
            forall|other: Seq<int>|
                valid_index(old(self).data.spec_shape(), other) && other != idx@.map_values(
                    |x: usize| x as int,
                ) ==> #[trigger] final(self).data.at(other) == old(self).data.at(other),
    {
        self.data.set(idx, value);
    }
}

/// One block of a tensor map: values and, optionally, the gradient of the
/// values with respect to atom positions.
#[derive(Debug, PartialEq)]
pub struct Block {
    /// The values and their axis labels.
    pub values: BasicBlock,
    /// Gradient of the values with respect to atom positions, when the
    /// calculation asked for it.
    pub positions_gradient: Option<BasicBlock>,
}

impl Block {
    /// Values and gradient are well-formed.
    pub open spec fn wf(&self) -> bool {
        &&& self.values.wf()
        &&& (self.positions_gradient matches Some(g) ==> g.wf())
    }

    /// The gradient block for a parameter: only `"positions"` is ever
    /// present.
    pub fn gradient(&self, parameter: &str) -> (r: Option<&BasicBlock>)
        ensures
            (match r {
                Some(g) => parameter@ == "positions"@ && self.positions_gradient == Some(*g),
                None => parameter@ != "positions"@ || self.positions_gradient is None,
            }),
    {
        let p = parameter.to_owned();
        let q = "positions".to_owned();
        if p == q {
            self.positions_gradient.as_ref()
        } else {
            None
        }
    }
}

/// A set of blocks, one per row of the keys labels.
#[derive(Debug, PartialEq)]
pub struct TensorMap {
    keys: Labels,
    blocks: Vec<Block>,
}

impl TensorMap {
    /// The outer keys.
    pub closed spec fn spec_keys(&self) -> Labels {
        self.keys
    }

    /// The blocks, in key order.
    pub closed spec fn spec_blocks(&self) -> Seq<Block> {
        self.blocks@
    }

    /// One block per key, everything well-formed.
    pub open spec fn wf(&self) -> bool {
        &&& self.spec_keys().wf()
        &&& self.spec_blocks().len() == self.spec_keys().rows_view().len()
        &&& forall|b: int| 0 <= b < self.spec_blocks().len() ==> (#[trigger] self.spec_blocks()[b]).wf()
    }

    /// Assemble a tensor map from keys and matching blocks.
    pub fn new(keys: Labels, blocks: Vec<Block>) -> (r: TensorMap)
        requires
            keys.wf(),
            blocks@.len() == keys.rows_view().len(),
            forall|b: int| 0 <= b < blocks@.len() ==> (#[trigger] blocks@[b]).wf(),
        ensures
            r.wf(),
            r.spec_keys() == keys,
            r.spec_blocks() == blocks@,
    {
        TensorMap { keys, blocks }
    }

    /// The outer keys.
    pub fn keys(&self) -> (r: &Labels)
        ensures
            *r == self.spec_keys(),
    {
        &self.keys
    }

    /// Number of blocks.
    pub fn blocks_count(&self) -> (n: usize)
        ensures
            n == self.spec_blocks().len(),
    {
        self.blocks.len()
    }

    /// The block of the `i`-th key.
    pub fn block_by_id(&self, i: usize) -> (r: &Block)
        requires
            i < self.spec_blocks().len(),
        ensures
            *r == self.spec_blocks()[i as int],
    {
        &self.blocks[i]
    }

    /// Mutable access to the block of the `i`-th key. Two handles into
    /// different blocks never alias.
    pub fn block_mut_by_id(&mut self, i: usize) -> (r: &mut Block)
        requires
            i < old(self).spec_blocks().len(),
        ensures
            *r == old(self).spec_blocks()[i as int],
            final(self).spec_keys() == old(self).spec_keys(),
            final(self).spec_blocks() == old(self).spec_blocks().update(i as int, *final(r)),
    {
        &mut self.blocks[i]
    }

    /// The block index of a key row, if present.
    pub fn position(&self, row: &Vec<i32>) -> (r: Option<usize>)
        requires
            self.wf(),
        ensures
            (match r {
                Some(i) => i < self.spec_keys().rows_view().len() && self.spec_keys().rows_view()[i as int]
                    == row@,
                None => !self.spec_keys().rows_view().contains(row@),
            }),
    {
        self.keys.position(row)
    }
}

} // verus!

verus! {

/// Axis sizes of a values block with one component axis.
pub proof fn lemma_block3_shape(bb: BasicBlock)
    requires
        bb.wf(),
        bb.components@.len() == 1,
    ensures
        bb.data.spec_shape().len() == 3,
        bb.data.spec_shape()[0] == bb.samples.rows_view().len(),
        bb.data.spec_shape()[1] == bb.components@[0].rows_view().len(),
        bb.data.spec_shape()[2] == bb.properties.rows_view().len(),
{
    let ls = bb.labels_shape();
    let m = bb.components@.map_values(|c: Labels| c.rows_view().len() as usize);
    assert(ls.len() == 3);
    assert(ls[0] == seq![bb.samples.rows_view().len() as usize].add(m)[0]);
    assert(ls[1] == seq![bb.samples.rows_view().len() as usize].add(m)[1]);
    assert(seq![bb.samples.rows_view().len() as usize].add(m)[1] == m[0]);
    assert(m[0] == bb.components@[0].rows_view().len() as usize);
    assert(ls[2] == bb.properties.rows_view().len() as usize);
}

/// Axis sizes of a gradient block with two component axes.
pub proof fn lemma_block4_shape(bb: BasicBlock)
    requires
        bb.wf(),
        bb.components@.len() == 2,
    ensures
        bb.data.spec_shape().len() == 4,
        bb.data.spec_shape()[0] == bb.samples.rows_view().len(),
        bb.data.spec_shape()[1] == bb.components@[0].rows_view().len(),
        bb.data.spec_shape()[2] == bb.components@[1].rows_view().len(),
        bb.data.spec_shape()[3] == bb.properties.rows_view().len(),
{
    let ls = bb.labels_shape();
    let m = bb.components@.map_values(|c: Labels| c.rows_view().len() as usize);
    assert(ls.len() == 4);
    assert(ls[0] == seq![bb.samples.rows_view().len() as usize].add(m)[0]);
    assert(ls[1] == seq![bb.samples.rows_view().len() as usize].add(m)[1]);
    assert(seq![bb.samples.rows_view().len() as usize].add(m)[1] == m[0]);
    assert(ls[2] == seq![bb.samples.rows_view().len() as usize].add(m)[2]);
    assert(seq![bb.samples.rows_view().len() as usize].add(m)[2] == m[1]);
    assert(m[0] == bb.components@[0].rows_view().len() as usize);
    assert(m[1] == bb.components@[1].rows_view().len() as usize);
    assert(ls[3] == bb.properties.rows_view().len() as usize);
}

} // verus!
