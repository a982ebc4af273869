//! Shapes, strides and the row-major layout.

use crate::products::{lemma_picked_product, prefix_product, product_of};
use crate::sums::{distinct_indices, lemma_picked_sum, picked, prefix_sum, sum_of};
use vstd::prelude::*;
use vstd::view::View as _;

verus! {

/// Product of the sizes `shape[k..]`; `1` once `k` reaches the end.
pub open spec fn suffix_product(shape: Seq<usize>, k: int) -> int
    decreases shape.len() - k,
{
    if 0 <= k < shape.len() {
        shape[k] * suffix_product(shape, k + 1)
    } else {
        1
    }
}

/// Number of elements that a shape addresses.
pub open spec fn volume(shape: Seq<usize>) -> int {
    suffix_product(shape, 0)
}

/// Row-major strides: the last dimension is dense, and every other stride is
/// the product of the sizes to its right.
pub open spec fn row_major(shape: Seq<usize>) -> Seq<usize> {
    Seq::new(shape.len(), |i: int| suffix_product(shape, i + 1) as usize)
}

/// Every size is at least one.
pub open spec fn all_positive(shape: Seq<usize>) -> bool {
    forall|i: int| 0 <= i < shape.len() ==> shape[i] >= 1
}

/// With sizes of at least one, dropping leading dimensions never grows the
/// product.
pub proof fn lemma_suffix_product_monotone(shape: Seq<usize>, j: int, k: int)
    requires
        all_positive(shape),
        0 <= j <= k,
    ensures
        1 <= suffix_product(shape, k) <= suffix_product(shape, j),
    decreases shape.len() - j,
{
    if k >= shape.len() {
        if j < shape.len() {
            lemma_suffix_product_monotone(shape, j + 1, k);
            assert(shape[j] * suffix_product(shape, j + 1) >= suffix_product(shape, j + 1))
                by (nonlinear_arith)
                requires
                    shape[j] >= 1,
                    suffix_product(shape, j + 1) >= 1,
            ;
        }
    } else if j < k {
        lemma_suffix_product_monotone(shape, j + 1, k);
        assert(shape[j] * suffix_product(shape, j + 1) >= suffix_product(shape, j + 1))
            by (nonlinear_arith)
            requires
                shape[j] >= 1,
                suffix_product(shape, j + 1) >= 1,
        ;
    } else {
        lemma_suffix_product_monotone(shape, j + 1, k + 1);
        assert(shape[j] * suffix_product(shape, j + 1) >= 1) by (nonlinear_arith)
            requires
                shape[j] >= 1,
                suffix_product(shape, j + 1) >= 1,
        ;
    }
}

/// What the dimensions `k..` contribute to the offset of the flat index `x`:
/// the sum of `((x / inner) % size) * stride`, where `inner` is the number of
/// elements that one step along the dimension skips.
pub open spec fn offset_from(x: int, shape: Seq<usize>, strides: Seq<usize>, k: int) -> int
    decreases shape.len() - k,
{
    if 0 <= k < shape.len() {
        ((x / suffix_product(shape, k + 1)) % (shape[k] as int)) * strides[k] + offset_from(
            x,
            shape,
            strides,
            k + 1,
        )
    } else {
        0
    }
}

/// The offset of the flat index `x` under the layout: `x` read as a
/// row-major coordinate of `shape`, each coordinate weighted by its stride.
pub open spec fn flat_offset(x: int, shape: Seq<usize>, strides: Seq<usize>) -> int {
    offset_from(x, shape, strides, 0)
}

/// Largest offset that the dimensions `k..` can contribute: every coordinate
/// at its maximum.
pub open spec fn extent_from(shape: Seq<usize>, strides: Seq<usize>, k: int) -> int
    decreases shape.len() - k,
{
    if 0 <= k < shape.len() {
        (shape[k] - 1) * strides[k] + extent_from(shape, strides, k + 1)
    } else {
        0
    }
}

/// Largest offset that the layout reaches.
pub open spec fn extent(shape: Seq<usize>, strides: Seq<usize>) -> int {
    extent_from(shape, strides, 0)
}

/// With sizes of at least one, dropping leading dimensions never grows the
/// reach.
pub proof fn lemma_extent_monotone(shape: Seq<usize>, strides: Seq<usize>, j: int, k: int)
    requires
        all_positive(shape),
        0 <= j <= k,
    ensures
        0 <= extent_from(shape, strides, k) <= extent_from(shape, strides, j),
    decreases shape.len() - j,
{
    if j < shape.len() {
        if j < k {
            lemma_extent_monotone(shape, strides, j + 1, k);
        } else {
            lemma_extent_monotone(shape, strides, j + 1, k + 1);
        }
        assert((shape[j] - 1) * strides[j] >= 0) by (nonlinear_arith)
            requires
                shape[j] >= 1,
                strides[j] >= 0,
        ;
    }
}

/// A row-major layout reaches exactly the last of its elements.
pub proof fn lemma_row_major_extent(shape: Seq<usize>, k: int)
    requires
        all_positive(shape),
        volume(shape) <= usize::MAX,
        0 <= k,
    ensures
        extent_from(shape, row_major(shape), k) == suffix_product(shape, k) - 1,
    decreases shape.len() - k,
{
    if k < shape.len() {
        lemma_row_major_extent(shape, k + 1);
        lemma_suffix_product_monotone(shape, 0, k + 1);
        let inner = suffix_product(shape, k + 1);
        assert(row_major(shape)[k] == inner);
        assert((shape[k] - 1) * inner + inner - 1 == shape[k] * inner - 1) by (nonlinear_arith);
    }
}

/// Canonical row-major strides of `shape`.
///
/// Only the strides themselves have to be representable: the full product of
/// the sizes is never formed.
pub fn default_strides(shape: &[usize]) -> (strides: Vec<usize>)
    requires
        forall|k: int| 0 < k <= shape@.len() ==> suffix_product(shape@, k) <= usize::MAX,
    ensures
        strides@ == row_major(shape@),
{
    let n = shape.len();
    let mut strides: Vec<usize> = Vec::new();
    let mut j: usize = 0;
    while j < n
        invariant
            j <= n,
            strides@.len() == j,
        decreases n - j,
    {
        strides.push(0);
        j += 1;
    }
    let mut acc: usize = 1;
    let mut i: usize = n;
    while i > 0
        invariant
            n == shape@.len(),
            i <= n,
            strides@.len() == n,
            i > 0 ==> acc == suffix_product(shape@, i as int),
            forall|k: int| 0 < k <= shape@.len() ==> suffix_product(shape@, k) <= usize::MAX,
            forall|k: int| i <= k < n ==> strides@[k] == suffix_product(shape@, k + 1),
        decreases i,
    {
        i -= 1;
        strides.set(i, acc);
        if i > 0 {
            assert(suffix_product(shape@, i as int) == shape@[i as int] * suffix_product(
                shape@,
                i + 1,
            ));
            acc = shape[i] * acc;
        }
    }
    assert(strides@ =~= row_major(shape@));
    strides
}

/// The mathematical content of a [`View`].
pub struct Layout {
    pub shape: Seq<usize>,
    pub strides: Seq<usize>,
}

impl Layout {
    /// The row-major layout of a shape.
    pub open spec fn contiguous(shape: Seq<usize>) -> Layout {
        Layout { shape, strides: row_major(shape) }
    }

    /// The layout with its dimensions reordered: dimension `i` of the result
    /// is dimension `dims[i]` of `self`.
    pub open spec fn permuted(self, dims: Seq<usize>) -> Layout {
        Layout {
            shape: Seq::new(dims.len(), |i: int| self.shape[dims[i] as int]),
            strides: Seq::new(dims.len(), |i: int| self.strides[dims[i] as int]),
        }
    }

    /// The layout pairs every size with a stride, all sizes are positive, and
    /// element counts, strides and offsets fit the signed 32-bit integers that
    /// index expressions are made of.
    pub open spec fn addressable(self) -> bool {
        &&& self.shape.len() == self.strides.len()
        &&& all_positive(self.shape)
        &&& volume(self.shape) <= i32::MAX
        &&& forall|i: int| 0 <= i < self.strides.len() ==> self.strides[i] <= i32::MAX
        &&& extent(self.shape, self.strides) <= i32::MAX
    }
}

/// The largest offset along every dimension, in order.
pub open spec fn reach_terms(shape: Seq<usize>, strides: Seq<usize>) -> Seq<int> {
    Seq::new(shape.len(), |i: int| (shape[i] - 1) * strides[i])
}

proof fn lemma_extent_split(shape: Seq<usize>, strides: Seq<usize>, k: nat)
    requires
        k <= shape.len(),
    ensures
        prefix_sum(reach_terms(shape, strides), k) + extent_from(shape, strides, k as int)
            == extent(shape, strides),
    decreases k,
{
    if k > 0 {
        lemma_extent_split(shape, strides, (k - 1) as nat);
    }
}

/// The largest offset of a layout is the sum of the largest offsets along its
/// dimensions.
pub proof fn lemma_extent_is_sum(shape: Seq<usize>, strides: Seq<usize>)
    ensures
        extent(shape, strides) == sum_of(reach_terms(shape, strides)),
{
    lemma_extent_split(shape, strides, shape.len());
}

/// In an addressable layout every size, every inner element count and every
/// partial reach fits a non-negative `i32`.
pub proof fn lemma_dimension_bounds(layout: Layout, i: int)
    requires
        layout.addressable(),
        0 <= i < layout.shape.len(),
    ensures
        1 <= suffix_product(layout.shape, i + 1) <= i32::MAX,
        1 <= layout.shape[i] <= i32::MAX,
        suffix_product(layout.shape, i) == layout.shape[i] * suffix_product(layout.shape, i + 1),
        1 <= suffix_product(layout.shape, i) <= i32::MAX,
        0 <= reach_terms(layout.shape, layout.strides)[i] <= extent_from(
            layout.shape,
            layout.strides,
            i,
        ) <= i32::MAX,
        extent_from(layout.shape, layout.strides, i) == reach_terms(layout.shape, layout.strides)[i]
            + extent_from(layout.shape, layout.strides, i + 1),
        0 <= extent_from(layout.shape, layout.strides, i + 1),
{
    let shape = layout.shape;
    let strides = layout.strides;
    lemma_suffix_product_monotone(shape, 0, i);
    lemma_suffix_product_monotone(shape, 0, i + 1);
    lemma_extent_monotone(shape, strides, 0, i);
    lemma_extent_monotone(shape, strides, i, i + 1);
    let inner = suffix_product(shape, i + 1);
    let d = shape[i] as int;
    let s = strides[i] as int;
    assert(d <= d * inner) by (nonlinear_arith)
        requires
            1 <= d,
            1 <= inner,
    ;
    assert(0 <= (d - 1) * s) by (nonlinear_arith)
        requires
            1 <= d,
            0 <= s,
    ;
}

/// The sizes of a shape as integers.
pub open spec fn sizes(shape: Seq<usize>) -> Seq<int> {
    Seq::new(shape.len(), |i: int| shape[i] as int)
}

proof fn lemma_volume_split(shape: Seq<usize>, k: nat)
    requires
        k <= shape.len(),
    ensures
        prefix_product(sizes(shape), k) * suffix_product(shape, k as int) == volume(shape),
    decreases k,
{
    if k > 0 {
        lemma_volume_split(shape, (k - 1) as nat);
        let p = prefix_product(sizes(shape), (k - 1) as nat);
        let d = shape[k - 1] as int;
        let rest = suffix_product(shape, k as int);
        assert((p * d) * rest == p * (d * rest)) by (nonlinear_arith);
    } else {
        assert(1 * suffix_product(shape, 0) == suffix_product(shape, 0));
    }
}

/// The element count of a shape is the product of its sizes.
pub proof fn lemma_volume_is_product(shape: Seq<usize>)
    ensures
        volume(shape) == product_of(sizes(shape)),
{
    lemma_volume_split(shape, shape.len());
    assert(product_of(sizes(shape)) * 1 == product_of(sizes(shape)));
}

/// The dimension numbers of a reordering, as integers.
pub open spec fn picks_of(dims: Seq<usize>) -> Seq<int> {
    Seq::new(dims.len(), |i: int| dims[i] as int)
}

/// `dims` lists every dimension number below `rank` exactly once.
pub open spec fn is_permutation(dims: Seq<usize>, rank: nat) -> bool {
    dims.len() == rank && distinct_indices(picks_of(dims), rank)
}

/// Reordering the dimensions of an addressable layout leaves it addressable,
/// with the same element count and the same reach.
pub proof fn lemma_permuted_addressable(layout: Layout, dims: Seq<usize>)
    requires
        layout.addressable(),
        is_permutation(dims, layout.shape.len()),
    ensures
        layout.permuted(dims).addressable(),
        volume(layout.permuted(dims).shape) == volume(layout.shape),
        extent(layout.permuted(dims).shape, layout.permuted(dims).strides) == extent(
            layout.shape,
            layout.strides,
        ),
{
    let out = layout.permuted(dims);
    let picks = picks_of(dims);
    assert forall|i: int| 0 <= i < dims.len() implies 0 <= #[trigger] dims[i]
        < layout.shape.len() by {
        assert(picks[i] == dims[i]);
    }
    lemma_volume_is_product(layout.shape);
    lemma_volume_is_product(out.shape);
    assert(sizes(out.shape) =~= picked(sizes(layout.shape), picks));
    lemma_picked_product(sizes(layout.shape), picks);
    lemma_extent_is_sum(layout.shape, layout.strides);
    lemma_extent_is_sum(out.shape, out.strides);
    assert(reach_terms(out.shape, out.strides) =~= picked(
        reach_terms(layout.shape, layout.strides),
        picks,
    ));
    assert forall|i: int| 0 <= i < layout.shape.len() implies reach_terms(
        layout.shape,
        layout.strides,
    )[i] >= 0 by {
        lemma_dimension_bounds(layout, i);
    }
    lemma_picked_sum(reach_terms(layout.shape, layout.strides), picks);
}

/// The row-major layout of a shape of positive sizes is addressable as soon
/// as its element count fits.
pub proof fn lemma_row_major_addressable(shape: Seq<usize>)
    requires
        all_positive(shape),
        volume(shape) <= i32::MAX,
    ensures
        Layout::contiguous(shape).addressable(),
        extent(shape, row_major(shape)) == volume(shape) - 1,
        forall|k: int| 0 < k <= shape.len() ==> suffix_product(shape, k) <= usize::MAX,
{
    lemma_row_major_extent(shape, 0);
    assert forall|k: int| 0 <= k <= shape.len() implies 1 <= #[trigger] suffix_product(shape, k)
        <= i32::MAX by {
        lemma_suffix_product_monotone(shape, 0, k);
    }
    assert forall|i: int| 0 <= i < shape.len() implies row_major(shape)[i] <= i32::MAX by {
        assert(row_major(shape)[i] == suffix_product(shape, i + 1));
    }
}

/// One affine layout: a shape and, for each dimension, its stride.
#[derive(Debug)]
pub struct View {
    shape: Vec<usize>,
    strides: Vec<usize>,
}

impl vstd::view::View for View {
    type V = Layout;

    closed spec fn view(&self) -> Layout {
        Layout { shape: self.shape@, strides: self.strides@ }
    }
}

impl Clone for View {
    fn clone(&self) -> (copy: View)
        ensures
            copy@ == self@,
    {
        View { shape: self.shape.clone(), strides: self.strides.clone() }
    }
}

impl View {
    /// Pairs a shape with one stride per dimension.
    pub fn new(shape: Vec<usize>, strides: Vec<usize>) -> (view: View)
        ensures
            view@ == (Layout { shape: shape@, strides: strides@ }),
    {
        View { shape, strides }
    }

    /// The layout that addresses `shape` in row-major order.
    pub fn contiguous(shape: Vec<usize>) -> (view: View)
        requires
            forall|k: int| 0 < k <= shape@.len() ==> suffix_product(shape@, k) <= usize::MAX,
        ensures
            view@ == Layout::contiguous(shape@),
    {
        let strides = default_strides(shape.as_slice());
        View { shape, strides }
    }

    /// The size of every dimension.
    pub fn shape(&self) -> (shape: &Vec<usize>)
        ensures
            shape@ == self@.shape,
    {
        &self.shape
    }

    /// The stride of every dimension.
    pub fn strides(&self) -> (strides: &Vec<usize>)
        ensures
            strides@ == self@.strides,
    {
        &self.strides
    }
}

} // verus!
