//! The stack of layouts behind a tensor that is reshaped and permuted.

use crate::compile::{chain_name, compiled, is_chain, lemma_compiled_value, IndexFn};
use crate::decompose::{decomposed, expr_node, lemma_decomposed_eval, lemma_decomposed_wf};
use crate::expr::{eval, respects, wf, Expr, Node};
use crate::fusion::{lemma_reshape_keeps_offsets, lemma_simplified_keeps_offsets};
use crate::layout::{
    all_positive, flat_offset, is_permutation, lemma_dimension_bounds, lemma_permuted_addressable,
    lemma_row_major_addressable, lemma_suffix_product_monotone, picks_of, suffix_product, volume,
    Layout, View,
};
use crate::merge::{merge_views, merged};
use vstd::prelude::*;
use vstd::view::View as _;

verus! {

/// The stack after repeatedly fusing its two most recent layouts for as long
/// as they fuse.
pub open spec fn simplified(views: Seq<Layout>) -> Seq<Layout>
    decreases views.len(),
{
    if views.len() <= 1 {
        views
    } else {
        match merged(views[views.len() - 2], views[views.len() - 1]) {
            Some(fusion) => simplified(views.subrange(0, views.len() - 2).push(fusion)),
            None => views,
        }
    }
}

/// The variable that stands for a flat logical index into `shape`.
pub open spec fn flat_var(shape: Seq<usize>) -> Expr {
    Expr::Var(0, 0, volume(shape) - 1)
}

/// `e` pushed through the `n` most recent layouts, the most recent first.
pub open spec fn folded(views: Seq<Layout>, n: nat, e: Expr) -> Expr
    decreases n,
{
    if n == 0 || n > views.len() {
        e
    } else {
        let at = views.len() - n;
        decomposed(folded(views, (n - 1) as nat, e), views[at].shape, views[at].strides)
    }
}

/// The physical offset of a flat logical index, as an expression: the index
/// pushed through every layout of the stack, from the most recent down to
/// the base.
pub open spec fn index_expr(views: Seq<Layout>) -> Expr {
    folded(views, views.len(), flat_var(views.last().shape))
}

/// The flat index `x` pushed through the `n` most recent layouts, the most
/// recent first: each layout turns the index it receives into an offset,
/// which the layout below reads as its own flat index.
pub open spec fn stack_offset(views: Seq<Layout>, n: nat, x: int) -> int
    decreases n,
{
    if n == 0 || n > views.len() {
        x
    } else {
        let at = views.len() - n;
        flat_offset(stack_offset(views, (n - 1) as nat, x), views[at].shape, views[at].strides)
    }
}

/// The physical offset of the logical index `x`: the index pushed through
/// the whole stack.
pub open spec fn physical_offset(views: Seq<Layout>, x: int) -> int {
    stack_offset(views, views.len(), x)
}

/// The stack is never empty, and every layout in it is addressable.
pub open spec fn stack_wf(views: Seq<Layout>) -> bool {
    &&& views.len() >= 1
    &&& forall|i: int| 0 <= i < views.len() ==> (#[trigger] views[i]).addressable()
}

/// Pushing an expression through layouts keeps it well formed, and its value
/// is the value of the expression pushed through the same layouts.
pub proof fn lemma_folded_eval(views: Seq<Layout>, n: nat, e: Expr, env: Seq<int>)
    requires
        stack_wf(views),
        n <= views.len(),
        wf(e),
        respects(e, env),
    ensures
        wf(folded(views, n, e)),
        respects(folded(views, n, e), env),
        eval(folded(views, n, e), env) == stack_offset(views, n, eval(e, env)),
    decreases n,
{
    if n > 0 {
        lemma_folded_eval(views, (n - 1) as nat, e, env);
        let at = views.len() - n;
        let below = folded(views, (n - 1) as nat, e);
        assert(views[at].addressable());
        lemma_decomposed_wf(below, views[at].shape, views[at].strides);
        lemma_decomposed_eval(below, views[at].shape, views[at].strides, env);
    }
}

/// The index expression of a stack evaluates, at every logical index, to the
/// physical offset of that index.
pub proof fn lemma_index_expr_eval(views: Seq<Layout>, x: int)
    requires
        stack_wf(views),
        0 <= x < volume(views.last().shape),
    ensures
        wf(index_expr(views)),
        respects(index_expr(views), seq![x]),
        eval(index_expr(views), seq![x]) == physical_offset(views, x),
{
    let shape = views.last().shape;
    assert(views[views.len() - 1].addressable());
    lemma_suffix_product_monotone(shape, 0, 0);
    lemma_folded_eval(views, views.len(), flat_var(shape), seq![x]);
}

/// An evaluator compiled from the index expression of a stack accepts every
/// logical index and takes it to its physical offset.
pub proof fn lemma_index_fn_offsets(views: Seq<Layout>, x: int)
    requires
        stack_wf(views),
        is_chain(index_expr(views)),
        0 <= x < volume(views.last().shape),
    ensures
        x <= compiled(index_expr(views)).limit,
        compiled(index_expr(views)).output(x) == physical_offset(views, x),
{
    let e = index_expr(views);
    lemma_index_expr_eval(views, x);
    lemma_chain_respects(e, seq![x]);
    lemma_compiled_value(e, seq![x]);
}

/// A chain that an environment suits ends in a variable that the environment
/// names, with a value within its bounds.
pub proof fn lemma_chain_respects(e: Expr, env: Seq<int>)
    requires
        is_chain(e),
        respects(e, env),
    ensures
        0 <= chain_name(e) < env.len(),
        env[chain_name(e)] <= crate::compile::chain_limit(e),
    decreases e,
{
    match e {
        Expr::Op(_, child, _) => {
            lemma_chain_respects(*child, env);
        },
        _ => {},
    }
}

/// What `simplified` leaves cannot be simplified further: either one layout
/// is left, or the two most recent layouts do not fuse.
pub proof fn lemma_simplified_is_stable(views: Seq<Layout>)
    ensures
        simplified(views).len() <= 1 || merged(
            simplified(views)[simplified(views).len() - 2],
            simplified(views).last(),
        ) is None,
        simplified(simplified(views)) == simplified(views),
        views.len() >= 1 ==> simplified(views).len() >= 1,
    decreases views.len(),
{
    if views.len() > 1 {
        if let Some(fusion) = merged(views[views.len() - 2], views[views.len() - 1]) {
            lemma_simplified_is_stable(views.subrange(0, views.len() - 2).push(fusion));
        }
    }
}

/// Tracks the layouts that a sequence of reshapes and permutes leaves behind.
#[derive(Debug)]
pub struct ShapeTracker {
    views: Vec<View>,
}

impl vstd::view::View for ShapeTracker {
    type V = Seq<Layout>;

    closed spec fn view(&self) -> Seq<Layout> {
        Seq::new(self.views@.len(), |i: int| self.views@[i]@)
    }
}

impl Clone for ShapeTracker {
    fn clone(&self) -> (copy: ShapeTracker)
        ensures
            copy@ == self@,
    {
        let mut views: Vec<View> = Vec::new();
        let mut i: usize = 0;
        while i < self.views.len()
            invariant
                i <= self.views.len(),
                views@.len() == i,
                forall|j: int| 0 <= j < i ==> (#[trigger] views@[j])@ == self.views@[j]@,
            decreases self.views.len() - i,
        {
            views.push(self.views[i].clone());
            i += 1;
        }
        let copy = ShapeTracker { views };
        assert(copy@ =~= self@);
        copy
    }
}

/// The number of elements of an addressable shape.
fn element_count(shape: &Vec<usize>, Ghost(layout): Ghost<Layout>) -> (count: i32)
    requires
        layout.addressable(),
        layout.shape == shape@,
    ensures
        count == volume(shape@),
        count >= 1,
{
    let mut acc: i32 = 1;
    let mut i: usize = shape.len();
    while i > 0
        invariant
            layout.addressable(),
            layout.shape == shape@,
            i <= shape.len(),
            acc == suffix_product(shape@, i as int),
            acc >= 1,
        decreases i,
    {
        i -= 1;
        proof {
            lemma_dimension_bounds(layout, i as int);
        }
        acc = (shape[i] as i32) * acc;
    }
    acc
}

impl ShapeTracker {
    /// The stack is never empty, and every layout in it is addressable.
    pub open spec fn wf(&self) -> bool {
        stack_wf(self@)
    }

    /// A tracker for a tensor of the given shape, laid out in row-major
    /// order.
    pub fn new(shape: Vec<usize>) -> (tracker: ShapeTracker)
        requires
            all_positive(shape@),
            volume(shape@) <= i32::MAX,
        ensures
            tracker@ == seq![Layout::contiguous(shape@)],
            tracker.wf(),
    {
        proof {
            lemma_row_major_addressable(shape@);
        }
        let mut views: Vec<View> = Vec::new();
        views.push(View::contiguous(shape));
        let tracker = ShapeTracker { views };
        assert(tracker@ =~= seq![Layout::contiguous(shape@)]);
        tracker
    }

    /// The current logical shape: the shape of the most recent layout.
    pub fn shape(&self) -> (shape: &Vec<usize>)
        requires
            self.wf(),
        ensures
            shape@ == self@.last().shape,
    {
        self.views[self.views.len() - 1].shape()
    }

    /// The layouts of the stack, the base first and the most recent last.
    pub fn views(&self) -> (views: &Vec<View>)
        ensures
            views@.len() == self@.len(),
            forall|i: int| 0 <= i < views@.len() ==> (#[trigger] views@[i])@ == self@[i],
    {
        &self.views
    }

    /// Reinterprets the tensor under `new_shape`, which must address as many
    /// elements as the current shape: pushes the row-major layout of
    /// `new_shape` and fuses it with the layouts below it as far as they
    /// fuse. Whether or not anything fuses, the current shape is `new_shape`
    /// afterwards, and every logical index keeps its physical offset.
    pub fn reshape(&mut self, new_shape: Vec<usize>)
        requires
            old(self).wf(),
            all_positive(new_shape@),
            volume(new_shape@) == volume(old(self)@.last().shape),
        ensures
            final(self)@ == simplified(old(self)@.push(Layout::contiguous(new_shape@))),
            final(self).wf(),
            final(self)@.last().shape == new_shape@,
            forall|x: int|
                0 <= x < volume(new_shape@) ==> #[trigger] physical_offset(final(self)@, x)
                    == physical_offset(old(self)@, x),
    {
        proof {
            lemma_row_major_addressable(new_shape@);
        }
        let ghost before = self@;
        let ghost pushed = before.push(Layout::contiguous(new_shape@));
        let view = View::contiguous(new_shape);
        self.views.push(view);
        assert(self@ =~= pushed);
        self.simplify();
        proof {
            assert forall|x: int| 0 <= x < volume(new_shape@) implies #[trigger] physical_offset(
                simplified(pushed),
                x,
            ) == physical_offset(before, x) by {
                lemma_simplified_keeps_offsets(pushed, x);
                lemma_reshape_keeps_offsets(before, new_shape@, x);
            }
        }
    }

    /// Fuses the two most recent layouts, again and again, until they no
    /// longer fuse or only one layout is left.
    fn simplify(&mut self)
        requires
            old(self).wf(),
        ensures
            final(self)@ == simplified(old(self)@),
            final(self).wf(),
            final(self)@.last().shape == old(self)@.last().shape,
    {
        let ghost start = self@;
        while self.views.len() > 1
            invariant_except_break
                simplified(self@) == simplified(start),
            invariant
                self.wf(),
                self@.last().shape == start.last().shape,
                self@.len() == self.views@.len(),
            ensures
                self@ == simplified(start),
            decreases self.views@.len(),
        {
            let n = self.views.len();
            let ghost current = self@;
            assert(current[n - 2].addressable() && current[n - 1].addressable());
            match merge_views(&self.views[n - 2], &self.views[n - 1]) {
                Some(fusion) => {
                    self.views.pop();
                    self.views.pop();
                    self.views.push(fusion);
                    assert(self@ =~= current.subrange(0, n - 2).push(fusion@));
                },
                None => {
                    break ;
                },
            }
        }
    }

    /// Reorders the dimensions of the current layout in place: dimension `i`
    /// becomes what dimension `new_dims[i]` was. Pushes no layout and fuses
    /// nothing.
    pub fn permute(&mut self, new_dims: &[usize])
        requires
            old(self).wf(),
            is_permutation(new_dims@, old(self)@.last().shape.len()),
        ensures
            final(self)@ == old(self)@.update(
                old(self)@.len() - 1,
                old(self)@.last().permuted(new_dims@),
            ),
            final(self).wf(),
            volume(final(self)@.last().shape) == volume(old(self)@.last().shape),
    {
        let ghost before = self@;
        let ghost layout = before.last();
        let last = self.views.len() - 1;
        proof {
            lemma_permuted_addressable(layout, new_dims@);
        }
        let mut shape: Vec<usize> = Vec::new();
        let mut strides: Vec<usize> = Vec::new();
        let mut i: usize = 0;
        while i < new_dims.len()
            invariant
                i <= new_dims.len(),
                last == self.views@.len() - 1,
                self@ == before,
                layout == before.last(),
                layout.shape.len() == layout.strides.len(),
                is_permutation(new_dims@, layout.shape.len()),
                shape@.len() == i,
                strides@.len() == i,
                forall|j: int| 0 <= j < i ==> shape@[j] == layout.shape[new_dims@[j] as int],
                forall|j: int| 0 <= j < i ==> strides@[j] == layout.strides[new_dims@[j] as int],
            decreases new_dims.len() - i,
        {
            let from = new_dims[i];
            assert(picks_of(new_dims@)[i as int] == from);
            let view = &self.views[last];
            shape.push(view.shape()[from]);
            strides.push(view.strides()[from]);
            i += 1;
        }
        assert(shape@ =~= layout.permuted(new_dims@).shape);
        assert(strides@ =~= layout.permuted(new_dims@).strides);
        self.views.set(last, View::new(shape, strides));
        assert(self@ =~= before.update(before.len() - 1, layout.permuted(new_dims@)));
    }

    /// The physical offset of a flat logical index as one expression over
    /// the variable `0`, which ranges over the logical indices.
    pub fn index_expr(&self) -> (e: Node)
        requires
            self.wf(),
        ensures
            e@ == index_expr(self@),
            wf(e@),
            forall|x: int|
                0 <= x < volume(self@.last().shape) ==> #[trigger] respects(e@, seq![x]),
            forall|x: int|
                0 <= x < volume(self@.last().shape) ==> eval(e@, seq![x])
                    == #[trigger] physical_offset(self@, x),
    {
        let ghost views = self@;
        let n = self.views.len();
        let top = &self.views[n - 1];
        let total = element_count(top.shape(), Ghost(views[n - 1]));
        let mut idx = Node::variable(0, 0, total - 1);
        let ghost start = idx@;
        let mut i: usize = n;
        while i > 0
            invariant
                views == self@,
                self.wf(),
                n == self.views@.len(),
                n == views.len(),
                i <= n,
                wf(idx@),
                idx@ == folded(views, (n - i) as nat, start),
            decreases i,
        {
            i -= 1;
            let view = &self.views[i];
            assert(views[i as int].addressable());
            idx = expr_node(idx, view.shape().as_slice(), view.strides().as_slice());
        }
        proof {
            assert forall|x: int| 0 <= x < volume(self@.last().shape) implies eval(
                idx@,
                seq![x],
            ) == #[trigger] physical_offset(self@, x) by {
                lemma_index_expr_eval(self@, x);
            }
            assert forall|x: int| 0 <= x < volume(self@.last().shape) implies #[trigger] respects(
                idx@,
                seq![x],
            ) by {
                lemma_index_expr_eval(self@, x);
            }
        }
        idx
    }

    /// Compiles the index expression into an evaluator. The expression has
    /// to be a chain of operators over the flat index; a stack whose offsets
    /// do not reduce to such a chain has no compiled evaluator.
    pub fn index_fn(&self) -> (f: IndexFn)
        requires
            self.wf(),
            is_chain(index_expr(self@)),
        ensures
            f@ == compiled(index_expr(self@)),
            f@.wf(),
            volume(self@.last().shape) - 1 <= f@.limit,
            forall|x: int|
                0 <= x < volume(self@.last().shape) ==> f@.output(x)
                    == #[trigger] physical_offset(self@, x),
    {
        let expr = self.index_expr();
        let f = IndexFn::compile(&expr);
        proof {
            assert forall|x: int| 0 <= x < volume(self@.last().shape) implies f@.output(x)
                == #[trigger] physical_offset(self@, x) by {
                lemma_index_fn_offsets(self@, x);
            }
            assert(self@[self@.len() - 1].addressable());
            lemma_suffix_product_monotone(self@.last().shape, 0, 0);
            lemma_index_fn_offsets(self@, volume(self@.last().shape) - 1);
        }
        f
    }
}

} // verus!
