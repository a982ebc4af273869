//! When a fused layout addresses what the two chained layouts address.

use crate::algebra::{lemma_scaled_wf, lemma_summed_wf, scaled};
use crate::decompose::{lemma_decomposed_eval, lemma_decomposed_wf};
use crate::expr::{
    all_respect, all_wf, eval, evals, lemma_eval_range, lemma_eval_sum_is_sum,
    lemma_upper_sum_is_sum, lemma_uppers_nonneg, respects, upper, uppers, wf, Expr, Op,
};
use crate::layout::{
    all_positive, extent, flat_offset, is_permutation, lemma_dimension_bounds, lemma_extent_is_sum,
    lemma_suffix_product_monotone, offset_from, picks_of, reach_terms, row_major, suffix_product,
    volume, Layout,
};
use crate::meaning::{lemma_scaled_eval, lemma_summed_eval};
use crate::merge::{
    affine_part, coefficients, composed, contributes, derived_strides, index_var, index_vars,
    lemma_position, linear_index, linear_terms, merged, position, top_terms,
};
use crate::sums::{
    distinct_indices, lemma_picked_sum, lemma_sum_of_push, picked, prefix_sum, sum_of,
};
use crate::tracker::{physical_offset, simplified, stack_offset, stack_wf};
use vstd::prelude::*;

verus! {

/// A coordinate within the shape: one entry per dimension, each below the
/// size of its dimension.
pub open spec fn within(coords: Seq<int>, shape: Seq<usize>) -> bool {
    &&& coords.len() == shape.len()
    &&& forall|i: int| 0 <= i < coords.len() ==> 0 <= #[trigger] coords[i] < shape[i]
}

/// What each coordinate contributes to the offset.
pub open spec fn weighted(coords: Seq<int>, strides: Seq<usize>) -> Seq<int> {
    Seq::new(coords.len(), |i: int| coords[i] * strides[i])
}

/// The offset of a coordinate under the layout: the coordinates weighted by
/// the strides.
pub open spec fn coordinate_offset(layout: Layout, coords: Seq<int>) -> int {
    sum_of(weighted(coords, layout.strides))
}

/// The row-major coordinate that the flat index `x` has in `shape`.
pub open spec fn coordinate_of(x: int, shape: Seq<usize>) -> Seq<int> {
    Seq::new(shape.len(), |i: int| (x / suffix_product(shape, i + 1)) % (shape[i] as int))
}

proof fn lemma_offset_split(x: int, shape: Seq<usize>, strides: Seq<usize>, k: nat)
    requires
        k <= shape.len(),
    ensures
        prefix_sum(weighted(coordinate_of(x, shape), strides), k) + offset_from(
            x,
            shape,
            strides,
            k as int,
        ) == flat_offset(x, shape, strides),
    decreases k,
{
    if k > 0 {
        lemma_offset_split(x, shape, strides, (k - 1) as nat);
    }
}

/// The offset of a flat index is the offset of its row-major coordinate, and
/// that coordinate lies within the shape.
pub proof fn lemma_flat_offset_by_coordinate(x: int, layout: Layout)
    requires
        layout.addressable(),
    ensures
        within(coordinate_of(x, layout.shape), layout.shape),
        flat_offset(x, layout.shape, layout.strides) == coordinate_offset(
            layout,
            coordinate_of(x, layout.shape),
        ),
{
    lemma_offset_split(x, layout.shape, layout.strides, layout.shape.len());
    let coords = coordinate_of(x, layout.shape);
    assert forall|i: int| 0 <= i < coords.len() implies 0 <= #[trigger] coords[i]
        < layout.shape[i] by {
        let d = layout.shape[i] as int;
        let q = x / suffix_product(layout.shape, i + 1);
        assert(0 <= q % d < d) by (nonlinear_arith)
            requires
                1 <= d,
        ;
    }
}

proof fn lemma_linear_terms(layout: Layout, coords: Seq<int>, n: nat)
    requires
        layout.addressable(),
        within(coords, layout.shape),
        n <= layout.shape.len(),
    ensures
        all_wf(linear_terms(layout, n)),
        all_respect(linear_terms(layout, n), coords),
        sum_of(uppers(linear_terms(layout, n))) <= prefix_sum(
            reach_terms(layout.shape, layout.strides),
            n,
        ),
        sum_of(evals(linear_terms(layout, n), coords)) == prefix_sum(
            weighted(coords, layout.strides),
            n,
        ),
    decreases n,
{
    if n > 0 {
        lemma_linear_terms(layout, coords, (n - 1) as nat);
        let i = n - 1;
        let before = linear_terms(layout, (n - 1) as nat);
        let after = linear_terms(layout, n);
        lemma_dimension_bounds(layout, i);
        let d = layout.shape[i] as int;
        let s = layout.strides[i] as int;
        let c = coords[i];
        assert(0 <= c < d);
        if contributes(layout, i) {
            let var = index_var(layout.shape, i);
            lemma_scaled_wf(var, s);
            lemma_scaled_eval(var, s, coords);
            let term = scaled(var, s);
            assert(after == before.push(term));
            assert(uppers(after) =~= uppers(before).push(upper(term)));
            assert(evals(after, coords) =~= evals(before, coords).push(eval(term, coords)));
            lemma_sum_of_push(uppers(before), upper(term));
            lemma_sum_of_push(evals(before, coords), eval(term, coords));
            assert forall|k: int| 0 <= k < after.len() implies wf(#[trigger] after[k]) && respects(
                after[k],
                coords,
            ) by {
                if k < before.len() {
                    assert(after[k] == before[k]);
                    assert(wf(before[k]));
                    assert(respects(before[k], coords));
                }
            }
        } else {
            assert(c * s == 0) by (nonlinear_arith)
                requires
                    c == 0 || s == 0,
            ;
        }
    }
}

/// The linear index of a layout evaluates, at every coordinate within the
/// shape, to the offset of that coordinate.
pub proof fn lemma_linear_index(layout: Layout, coords: Seq<int>)
    requires
        layout.addressable(),
        within(coords, layout.shape),
    ensures
        wf(linear_index(layout)),
        respects(linear_index(layout), coords),
        eval(linear_index(layout), coords) == coordinate_offset(layout, coords),
{
    let terms = linear_terms(layout, layout.shape.len());
    lemma_linear_terms(layout, coords, layout.shape.len());
    lemma_extent_is_sum(layout.shape, layout.strides);
    lemma_summed_wf(terms);
    lemma_summed_eval(terms, coords);
}

/// The terms that an expression adds up have its value between them.
pub proof fn lemma_top_terms(e: Expr, env: Seq<int>)
    requires
        wf(e),
        respects(e, env),
    ensures
        all_wf(top_terms(e)),
        all_respect(top_terms(e), env),
        sum_of(evals(top_terms(e), env)) == eval(e, env),
{
    match e {
        Expr::Sum(terms) => {
            lemma_eval_sum_is_sum(terms, terms.len(), env);
        },
        _ => {
            reveal_with_fuel(prefix_sum, 2);
            assert(top_terms(e) =~= seq![e]);
        },
    }
}

/// For every dimension, the term that set its stride last among the first
/// `n` terms; `-1` where none did.
pub open spec fn setters(terms: Seq<Expr>, vars: Seq<Expr>, n: nat) -> Seq<int>
    decreases n,
{
    if n == 0 || n > terms.len() {
        Seq::new(vars.len(), |i: int| -1int)
    } else {
        let before = setters(terms, vars, (n - 1) as nat);
        match affine_part(terms[n - 1]) {
            Some((v, c)) => match position(vars, v, vars.len()) {
                Some(p) => before.update(p, n - 1),
                None => before,
            },
            None => before,
        }
    }
}

/// The stride of dimension `p` is zero if no term set it, and else the
/// coefficient of the term that set it, which is a multiple of the variable
/// of that dimension.
pub open spec fn set_by(terms: Seq<Expr>, vars: Seq<Expr>, n: nat, p: int) -> bool {
    let at = setters(terms, vars, n)[p];
    let stride = coefficients(terms, vars, n)[p];
    if at == -1 {
        stride == 0
    } else {
        &&& 0 <= at < n
        &&& affine_part(terms[at]) is Some
        &&& affine_part(terms[at])->Some_0.0 == vars[p]
        &&& stride == affine_part(terms[at])->Some_0.1 as usize
    }
}

/// No term set the strides of two dimensions.
pub open spec fn set_apart(terms: Seq<Expr>, vars: Seq<Expr>, n: nat, p: int, q: int) -> bool {
    let s = setters(terms, vars, n);
    s[p] == -1 || s[q] == -1 || s[p] != s[q]
}

/// Every stride is accounted for by the term that set it, and no term set two
/// strides.
pub proof fn lemma_setters(terms: Seq<Expr>, vars: Seq<Expr>, n: nat)
    requires
        n <= terms.len(),
    ensures
        setters(terms, vars, n).len() == vars.len(),
        coefficients(terms, vars, n).len() == vars.len(),
        forall|p: int| 0 <= p < vars.len() ==> #[trigger] set_by(terms, vars, n, p),
        forall|p: int, q: int|
            0 <= p < vars.len() && 0 <= q < vars.len() && p != q ==> #[trigger] set_apart(
                terms,
                vars,
                n,
                p,
                q,
            ),
    decreases n,
{
    if n > 0 {
        let m = (n - 1) as nat;
        lemma_setters(terms, vars, m);
        let hit = match affine_part(terms[n - 1]) {
            Some((v, c)) => position(vars, v, vars.len()),
            None => None,
        };
        if let Some(at) = hit {
            let v = affine_part(terms[n - 1])->Some_0.0;
            lemma_position(vars, v, vars.len(), vars.len());
        }
        assert forall|p: int| 0 <= p < vars.len() implies #[trigger] set_by(terms, vars, n, p) by {
            assert(set_by(terms, vars, m, p));
        }
        assert forall|p: int, q: int|
            0 <= p < vars.len() && 0 <= q < vars.len() && p != q implies #[trigger] set_apart(
            terms,
            vars,
            n,
            p,
            q,
        ) by {
            assert(set_apart(terms, vars, m, p, q));
            assert(set_by(terms, vars, m, p));
            assert(set_by(terms, vars, m, q));
        }
    }
}

/// If two chained layouts fuse, the fused layout gives every coordinate the
/// offset that the two layouts give it between them: the offset under the
/// later layout, read as a flat index by the earlier.
pub proof fn lemma_merged_coordinate(outer: Layout, inner: Layout, coords: Seq<int>)
    requires
        outer.addressable(),
        inner.addressable(),
        merged(outer, inner) is Some,
        within(coords, inner.shape),
    ensures
        coordinate_offset(merged(outer, inner)->Some_0, coords) == flat_offset(
            coordinate_offset(inner, coords),
            outer.shape,
            outer.strides,
        ),
{
    let index = linear_index(inner);
    lemma_linear_index(inner, coords);
    lemma_decomposed_wf(index, outer.shape, outer.strides);
    lemma_decomposed_eval(index, outer.shape, outer.strides, coords);
    let whole = composed(outer, inner);
    lemma_top_terms(whole, coords);
    let terms = top_terms(whole);
    let vars = index_vars(inner.shape);
    let strides = derived_strides(outer, inner);
    let picks = setters(terms, vars, terms.len());
    let values = evals(terms, coords);
    lemma_setters(terms, vars, terms.len());
    if inner.shape.len() == 0 {
        assert(weighted(coords, strides) =~= Seq::<int>::empty());
    } else {
        assert forall|k: int| 0 <= k < values.len() implies values[k] >= 0 by {
            assert(wf(terms[k]) && respects(terms[k], coords));
            lemma_eval_range(terms[k], coords);
        }
        assert forall|p: int| 0 <= p < picks.len() implies 0 <= #[trigger] picks[p]
            < terms.len() by {
            assert(set_by(terms, vars, terms.len(), p));
            assert(strides[p] != 0);
        }
        assert forall|p: int, q: int|
            0 <= p < picks.len() && 0 <= q < picks.len() && p != q implies #[trigger] picks[p]
            != #[trigger] picks[q] by {
            assert(set_apart(terms, vars, terms.len(), p, q));
        }
        assert(distinct_indices(picks, terms.len()));
        lemma_picked_sum(values, picks);
        assert forall|p: int| 0 <= p < picks.len() implies picked(values, picks)[p] == weighted(
            coords,
            strides,
        )[p] by {
            assert(set_by(terms, vars, terms.len(), p));
            let term = terms[picks[p]];
            assert(wf(term) && respects(term, coords));
            let c = affine_part(term)->Some_0.1;
            let x = coords[p];
            assert(vars[p] == index_var(inner.shape, p));
            assert(0 <= x < inner.shape[p]);
            assert(eval(vars[p], coords) == x);
            assert(eval(term, coords) == x * c) by {
                match term {
                    Expr::Op(Op::Mul, child, _) => {},
                    _ => {
                        assert(x * 1 == x);
                    },
                }
            }
            assert(0 <= c && (inner.shape[p] - 1) * c <= i32::MAX) by {
                match term {
                    Expr::Op(Op::Mul, child, _) => {
                        assert(upper(*child) == inner.shape[p] - 1);
                    },
                    _ => {
                        lemma_dimension_bounds(inner, p);
                        assert((inner.shape[p] - 1) * 1 == inner.shape[p] - 1);
                    },
                }
            }
            if inner.shape[p] == 1 {
                assert(x * c == 0 && x * strides[p] == 0) by (nonlinear_arith)
                    requires
                        x == 0,
                ;
            } else {
                assert(c <= i32::MAX) by (nonlinear_arith)
                    requires
                        0 <= c,
                        (inner.shape[p] - 1) * c <= i32::MAX,
                        inner.shape[p] - 1 >= 1,
                ;
            }
        }
        assert(picked(values, picks) =~= weighted(coords, strides));
    }
}

/// If two chained layouts fuse, the fused layout takes every flat index to
/// the offset that the two layouts take it to in turn.
pub proof fn lemma_merged_offsets(outer: Layout, inner: Layout, x: int)
    requires
        outer.addressable(),
        inner.addressable(),
        merged(outer, inner) is Some,
    ensures
        flat_offset(
            x,
            merged(outer, inner)->Some_0.shape,
            merged(outer, inner)->Some_0.strides,
        ) == flat_offset(
            flat_offset(x, inner.shape, inner.strides),
            outer.shape,
            outer.strides,
        ),
{
    let fusion = merged(outer, inner)->Some_0;
    let coords = coordinate_of(x, inner.shape);
    lemma_flat_offset_by_coordinate(x, inner);
    lemma_merged_coordinate(outer, inner, coords);
    lemma_offset_split(x, fusion.shape, fusion.strides, fusion.shape.len());
}

/// The layout `i` places below the `n` most recent layouts of a stack.
pub open spec fn below(views: Seq<Layout>, n: nat, i: int) -> Layout {
    views[views.len() - n - i]
}

/// Two stacks that have brought an index to the same offset, and that agree
/// on the layouts further down, bring it to the same offset further down.
pub proof fn lemma_stack_offset_shared(
    a: Seq<Layout>,
    b: Seq<Layout>,
    na: nat,
    nb: nat,
    more: nat,
    xa: int,
    xb: int,
)
    requires
        na + more <= a.len(),
        nb + more <= b.len(),
        stack_offset(a, na, xa) == stack_offset(b, nb, xb),
        forall|i: int| 1 <= i <= more ==> #[trigger] below(a, na, i) == below(b, nb, i),
    ensures
        stack_offset(a, na + more, xa) == stack_offset(b, nb + more, xb),
    decreases more,
{
    if more > 0 {
        lemma_stack_offset_shared(a, b, na, nb, (more - 1) as nat, xa, xb);
        assert(below(a, na, more as int) == below(b, nb, more as int));
    }
}

/// If the two most recent layouts of a stack fuse, putting the fused layout
/// in their place leaves the physical offset of every logical index as it
/// was.
pub proof fn lemma_fusion_keeps_offsets(views: Seq<Layout>, x: int)
    requires
        stack_wf(views),
        views.len() >= 2,
        merged(views[views.len() - 2], views[views.len() - 1]) is Some,
    ensures
        physical_offset(
            views.subrange(0, views.len() - 2).push(
                merged(views[views.len() - 2], views[views.len() - 1])->Some_0,
            ),
            x,
        ) == physical_offset(views, x),
{
    let n = views.len();
    let outer = views[n - 2];
    let inner = views[n - 1];
    let fusion = merged(outer, inner)->Some_0;
    let fused = views.subrange(0, n - 2).push(fusion);
    assert(outer.addressable() && inner.addressable());
    lemma_merged_offsets(outer, inner, x);
    reveal_with_fuel(stack_offset, 3);
    assert(stack_offset(views, 2, x) == stack_offset(fused, 1, x));
    assert forall|i: int| 1 <= i <= n - 2 implies #[trigger] below(views, 2, i) == below(
        fused,
        1,
        i,
    ) by {}
    lemma_stack_offset_shared(views, fused, 2, 1, (n - 2) as nat, x, x);
}

/// The terms that an expression adds up have its bound between them.
pub proof fn lemma_top_terms_upper(e: Expr)
    requires
        wf(e),
    ensures
        all_wf(top_terms(e)),
        sum_of(uppers(top_terms(e))) == upper(e),
{
    match e {
        Expr::Sum(terms) => {
            lemma_upper_sum_is_sum(terms, terms.len());
        },
        _ => {
            reveal_with_fuel(prefix_sum, 2);
            assert(top_terms(e) =~= seq![e]);
        },
    }
}

/// A fused layout is addressable: it reaches no further than the earlier of
/// the two layouts that it stands for.
pub proof fn lemma_merged_addressable(outer: Layout, inner: Layout)
    requires
        outer.addressable(),
        inner.addressable(),
        merged(outer, inner) is Some,
    ensures
        merged(outer, inner)->Some_0.addressable(),
        merged(outer, inner)->Some_0.shape == inner.shape,
        extent(inner.shape, merged(outer, inner)->Some_0.strides) <= extent(
            outer.shape,
            outer.strides,
        ),
{
    let origin = Seq::new(inner.shape.len(), |i: int| 0int);
    assert(within(origin, inner.shape));
    lemma_linear_index(inner, origin);
    let whole = composed(outer, inner);
    lemma_decomposed_wf(linear_index(inner), outer.shape, outer.strides);
    lemma_top_terms_upper(whole);
    let terms = top_terms(whole);
    let vars = index_vars(inner.shape);
    let strides = derived_strides(outer, inner);
    let picks = setters(terms, vars, terms.len());
    lemma_setters(terms, vars, terms.len());
    lemma_uppers_nonneg(terms);
    assert forall|p: int| 0 <= p < picks.len() implies 0 <= #[trigger] picks[p] < terms.len() by {
        assert(set_by(terms, vars, terms.len(), p));
        assert(strides[p] != 0);
    }
    assert forall|p: int, q: int|
        0 <= p < picks.len() && 0 <= q < picks.len() && p != q implies #[trigger] picks[p]
        != #[trigger] picks[q] by {
        assert(set_apart(terms, vars, terms.len(), p, q));
    }
    assert(distinct_indices(picks, terms.len()));
    lemma_picked_sum(uppers(terms), picks);
    assert forall|p: int| 0 <= p < picks.len() implies #[trigger] strides[p] <= i32::MAX
        && upper(terms[picks[p]]) == (inner.shape[p] - 1) * strides[p] by {
        assert(set_by(terms, vars, terms.len(), p));
        let term = terms[picks[p]];
        assert(wf(term));
        assert(vars[p] == index_var(inner.shape, p));
        match term {
            Expr::Op(Op::Mul, child, _) => {
                assert(upper(*child) == inner.shape[p] - 1);
            },
            _ => {
                assert((inner.shape[p] - 1) * 1 == inner.shape[p] - 1);
            },
        }
    }
    assert(picked(uppers(terms), picks) =~= reach_terms(inner.shape, strides)) by {
        assert forall|p: int| 0 <= p < picks.len() implies picked(uppers(terms), picks)[p]
            == reach_terms(inner.shape, strides)[p] by {
            assert(strides[p] <= i32::MAX);
        }
    }
    let fusion = merged(outer, inner)->Some_0;
    assert(fusion.strides == strides);
    assert(fusion.shape == inner.shape);
    assert(fusion.shape.len() == fusion.strides.len());
    assert forall|i: int| 0 <= i < fusion.strides.len() implies fusion.strides[i] <= i32::MAX by {
        assert(strides[i] <= i32::MAX);
    }
    lemma_extent_is_sum(inner.shape, strides);
    assert(extent(fusion.shape, fusion.strides) <= i32::MAX);
}

/// Simplifying a stack keeps it well formed, keeps its current shape, and
/// leaves the physical offset of every logical index as it was.
pub proof fn lemma_simplified_keeps_offsets(views: Seq<Layout>, x: int)
    requires
        stack_wf(views),
    ensures
        stack_wf(simplified(views)),
        simplified(views).last().shape == views.last().shape,
        physical_offset(simplified(views), x) == physical_offset(views, x),
    decreases views.len(),
{
    if views.len() > 1 {
        let n = views.len();
        let outer = views[n - 2];
        let inner = views[n - 1];
        assert(outer.addressable() && inner.addressable());
        if let Some(fusion) = merged(outer, inner) {
            lemma_merged_addressable(outer, inner);
            let fused = views.subrange(0, n - 2).push(fusion);
            assert forall|i: int| 0 <= i < fused.len() implies (#[trigger] fused[i]).addressable()
            by {
                if i < n - 2 {
                    assert(fused[i] == views[i]);
                    assert(views[i].addressable());
                }
            }
            lemma_simplified_keeps_offsets(fused, x);
            lemma_fusion_keeps_offsets(views, x);
        }
    }
}

proof fn lemma_row_major_offset_from(x: int, shape: Seq<usize>, k: int)
    requires
        all_positive(shape),
        volume(shape) <= usize::MAX,
        0 <= x,
        0 <= k <= shape.len(),
    ensures
        offset_from(x, shape, row_major(shape), k) == x % suffix_product(shape, k),
    decreases shape.len() - k,
{
    if k < shape.len() {
        lemma_row_major_offset_from(x, shape, k + 1);
        lemma_suffix_product_monotone(shape, 0, k + 1);
        let inner = suffix_product(shape, k + 1);
        let d = shape[k] as int;
        assert(row_major(shape)[k] == inner);
        vstd::arithmetic::div_mod::lemma_mod_breakdown(x, inner, d);
        assert(inner * d == d * inner) by (nonlinear_arith);
        assert(((x / inner) % d) * inner == inner * ((x / inner) % d)) by (nonlinear_arith);
    } else {
        assert(x % 1 == 0);
    }
}

/// A row-major layout takes every flat index within its shape to itself.
pub proof fn lemma_row_major_offset(x: int, shape: Seq<usize>)
    requires
        all_positive(shape),
        volume(shape) <= usize::MAX,
        0 <= x < volume(shape),
    ensures
        flat_offset(x, shape, row_major(shape)) == x,
{
    lemma_row_major_offset_from(x, shape, 0);
    let v = volume(shape);
    assert(x % v == x) by (nonlinear_arith)
        requires
            0 <= x < v,
    ;
}

/// A stack of one row-major layout takes every logical index within the
/// shape to itself.
pub proof fn lemma_fresh_offsets(shape: Seq<usize>, x: int)
    requires
        all_positive(shape),
        volume(shape) <= usize::MAX,
        0 <= x < volume(shape),
    ensures
        physical_offset(seq![Layout::contiguous(shape)], x) == x,
{
    lemma_row_major_offset(x, shape);
    reveal_with_fuel(stack_offset, 2);
}

/// Pushing the row-major layout of a shape onto a stack leaves the physical
/// offset of every logical index within the shape as it was.
pub proof fn lemma_reshape_keeps_offsets(views: Seq<Layout>, shape: Seq<usize>, x: int)
    requires
        all_positive(shape),
        volume(shape) <= usize::MAX,
        0 <= x < volume(shape),
    ensures
        physical_offset(views.push(Layout::contiguous(shape)), x) == physical_offset(views, x),
{
    let pushed = views.push(Layout::contiguous(shape));
    lemma_row_major_offset(x, shape);
    reveal_with_fuel(stack_offset, 2);
    assert(stack_offset(pushed, 1, x) == stack_offset(views, 0, x));
    assert forall|i: int| 1 <= i <= views.len() implies #[trigger] below(pushed, 1, i) == below(
        views,
        0,
        i,
    ) by {}
    lemma_stack_offset_shared(pushed, views, 1, 0, views.len(), x, x);
}

/// Reordering the dimensions of a layout reorders the coordinates with them:
/// the coordinate whose entry `i` is entry `dims[i]` of `coords` has, under
/// the reordered layout, the offset that `coords` has under the layout.
pub proof fn lemma_permuted_offset(layout: Layout, dims: Seq<usize>, coords: Seq<int>)
    requires
        layout.addressable(),
        is_permutation(dims, layout.shape.len()),
        within(coords, layout.shape),
    ensures
        within(picked(coords, picks_of(dims)), layout.permuted(dims).shape),
        coordinate_offset(layout.permuted(dims), picked(coords, picks_of(dims)))
            == coordinate_offset(layout, coords),
{
    let picks = picks_of(dims);
    let out = layout.permuted(dims);
    let moved = picked(coords, picks);
    assert forall|i: int| 0 <= i < dims.len() implies 0 <= #[trigger] dims[i]
        < layout.shape.len() by {
        assert(picks[i] == dims[i]);
    }
    assert forall|i: int| 0 <= i < moved.len() implies 0 <= #[trigger] moved[i] < out.shape[i] by {
        assert(0 <= coords[dims[i] as int] < layout.shape[dims[i] as int]);
    }
    let values = weighted(coords, layout.strides);
    assert forall|i: int| 0 <= i < values.len() implies values[i] >= 0 by {
        let c = coords[i];
        let s = layout.strides[i] as int;
        assert(c * s >= 0) by (nonlinear_arith)
            requires
                c >= 0,
                s >= 0,
        ;
    }
    lemma_picked_sum(values, picks);
    assert(weighted(moved, out.strides) =~= picked(values, picks));
}

/// The coordinate that is one along dimension `k` and zero along the others.
pub open spec fn unit(rank: nat, k: int) -> Seq<int> {
    Seq::new(rank, |i: int| if i == k { 1int } else { 0int })
}

proof fn lemma_single_entry_sum(s: Seq<int>, k: int, n: nat)
    requires
        0 <= k < s.len(),
        n <= s.len(),
        forall|i: int| 0 <= i < s.len() && i != k ==> s[i] == 0,
    ensures
        prefix_sum(s, n) == if k < n { s[k] } else { 0 },
    decreases n,
{
    if n > 0 {
        lemma_single_entry_sum(s, k, (n - 1) as nat);
    }
}

/// The offset of a unit coordinate is the stride of its dimension.
pub proof fn lemma_unit_offset(layout: Layout, k: int)
    requires
        layout.shape.len() == layout.strides.len(),
        0 <= k < layout.shape.len(),
    ensures
        coordinate_offset(layout, unit(layout.shape.len(), k)) == layout.strides[k],
{
    let s = weighted(unit(layout.shape.len(), k), layout.strides);
    assert forall|i: int| 0 <= i < s.len() && i != k implies s[i] == 0 by {
        assert(0 * layout.strides[i] == 0);
    }
    assert(s[k] == layout.strides[k]) by {
        assert(1 * layout.strides[k] == layout.strides[k]);
    }
    lemma_single_entry_sum(s, k, s.len());
}

/// The product of the sizes `shape[a..b]`.
pub open spec fn span(shape: Seq<usize>, a: int, b: int) -> int
    decreases b - a,
{
    if a < b {
        span(shape, a, b - 1) * shape[b - 1]
    } else {
        1
    }
}

proof fn lemma_span(shape: Seq<usize>, a: int, b: int)
    requires
        forall|i: int| 0 <= i < shape.len() ==> shape[i] >= 2,
        0 <= a <= b <= shape.len(),
    ensures
        suffix_product(shape, a) == span(shape, a, b) * suffix_product(shape, b),
        span(shape, a, b) >= 1,
        a < b ==> span(shape, a, b) >= 2,
        suffix_product(shape, b) >= 1,
    decreases b - a,
{
    assert(all_positive(shape));
    lemma_suffix_product_monotone(shape, 0, b);
    if a < b {
        lemma_span(shape, a, b - 1);
        let p = span(shape, a, b - 1);
        let d = shape[b - 1] as int;
        let rest = suffix_product(shape, b);
        assert(suffix_product(shape, b - 1) == d * rest);
        assert(p * (d * rest) == (p * d) * rest && p * d >= 2) by (nonlinear_arith)
            requires
                p >= 1,
                d >= 2,
        ;
    } else {
        assert(1 * suffix_product(shape, a) == suffix_product(shape, a));
    }
}

/// The flat index of a unit coordinate has that coordinate again.
proof fn lemma_unit_digits(shape: Seq<usize>, k: int)
    requires
        forall|i: int| 0 <= i < shape.len() ==> shape[i] >= 2,
        0 <= k < shape.len(),
    ensures
        coordinate_of(suffix_product(shape, k + 1), shape) == unit(shape.len(), k),
{
    let x = suffix_product(shape, k + 1);
    let coords = coordinate_of(x, shape);
    assert forall|i: int| 0 <= i < shape.len() implies coords[i] == unit(shape.len(), k)[i] by {
        let below = suffix_product(shape, i + 1);
        let d = shape[i] as int;
        if i == k {
            lemma_span(shape, k + 1, k + 1);
            assert(x / x == 1) by (nonlinear_arith)
                requires
                    x >= 1,
            ;
            assert(1int % d == 1) by (nonlinear_arith)
                requires
                    d >= 2,
            ;
        } else if i > k {
            lemma_span(shape, k + 1, i + 1);
            let q = span(shape, k + 1, i + 1);
            crate::sums::lemma_split_division(q, 0, below);
            assert(0int / below == 0) by (nonlinear_arith)
                requires
                    below >= 1,
            ;
            assert(x / below == q);
            let p = span(shape, k + 1, i);
            assert(q == p * d);
            vstd::arithmetic::div_mod::lemma_mod_multiples_basic(p, d);
        } else {
            lemma_span(shape, i + 1, k + 1);
            let b = span(shape, i + 1, k + 1);
            assert(x / below == 0) by (nonlinear_arith)
                requires
                    below == b * x,
                    b >= 2,
                    x >= 1,
            ;
            assert(0int % d == 0) by (nonlinear_arith)
                requires
                    d >= 2,
            ;
        }
    }
    assert(coords =~= unit(shape.len(), k));
}

/// Where the row-major reading of a layout's own shape fuses with the
/// layout, the fusion is the layout itself. Sizes of one are left out: their
/// strides address nothing.
pub proof fn lemma_same_shape_reading(outer: Layout)
    requires
        outer.addressable(),
        forall|i: int| 0 <= i < outer.shape.len() ==> outer.shape[i] >= 2,
        merged(outer, Layout::contiguous(outer.shape)) is Some,
    ensures
        merged(outer, Layout::contiguous(outer.shape)) == Some(outer),
{
    let shape = outer.shape;
    let inner = Layout::contiguous(shape);
    crate::layout::lemma_row_major_addressable(shape);
    lemma_merged_addressable(outer, inner);
    let fusion = merged(outer, inner)->Some_0;
    assert forall|k: int| 0 <= k < shape.len() implies fusion.strides[k] == outer.strides[k] by {
        let u = unit(shape.len(), k);
        assert(within(u, shape));
        lemma_merged_coordinate(outer, inner, u);
        lemma_unit_offset(fusion, k);
        lemma_unit_offset(inner, k);
        lemma_span(shape, k + 1, k + 1);
        lemma_suffix_product_monotone(shape, 0, k + 1);
        let x = suffix_product(shape, k + 1);
        assert(inner.strides[k] == x);
        lemma_unit_digits(shape, k);
        lemma_flat_offset_by_coordinate(x, outer);
        lemma_unit_offset(outer, k);
    }
    assert(fusion.strides =~= outer.strides);
}

} // verus!
